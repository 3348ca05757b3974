//! The loader: attaches the programs of each endpoint through a backend,
//! lists the endpoints whose programs are all pinned, and reconciles what
//! is attached with what is wanted.
use vstd::prelude::*;

use crate::endpoint::{
    EndpointKind, EndpointMap, GlobalMap, Hook, HookSpec, all_global_maps, endpoint_map_text,
    global_map_text, global_maps, kind_hooks, kind_maps, kind_text, law_kind_text_round_trip,
};
use crate::ip::{decimal, decimal_string};
use crate::pin::{
    PinRoot, is_name, join, law_pin_subpath_round_trip, lemma_kind_text_plain, next_normal,
    no_slash, parse_pin_subpath_spec, pin_subpath_spec, slash_from,
};
use crate::text::{char_at, char_len, concat, owned, slice_chars, str_eq};

verus! {

/// A required program that could not be attached, with the reason.
#[derive(Debug)]
pub struct HookFailure {
    pub hook_name: &'static str,
    pub error: String,
}

/// Why a loader operation failed.
#[derive(Debug)]
pub enum LoaderError {
    ObjectLoad(String),
    ProgramNotFound { name: &'static str },
    ProgramLoad { name: &'static str, src: String },
    Attach { name: &'static str, ifname: String, src: String },
    Unpin { path: String, src: String },
    LinkResolve { link: String, src: String },
    ListPins { prefix: String, src: String },
    MapNotFound { name: String },
    /// Some required programs of an endpoint failed to attach.
    Partial(Vec<HookFailure>),
    ActorGone,
}

/// How the standard library's `Debug` prints a string: quoted, with
/// special characters escaped.
pub uninterp spec fn debug_quoted(s: Seq<char>) -> Seq<char>;

/// Prints `s` with `{:?}`.
///
/// Calls the standard library's `Debug` formatting for `str`; the text is
/// named `debug_quoted` of `s`.
#[verifier::external_body]
pub(crate) fn quoted(s: &str) -> (r: String)
    ensures
        r@ == debug_quoted(s@),
{
    format!("{:?}", s)
}

/// The message of an error.
pub open spec fn error_text(e: LoaderError) -> Seq<char> {
    match e {
        LoaderError::ObjectLoad(s) => "failed to load eBPF object: "@ + s@,
        LoaderError::ProgramNotFound { name } => "program "@ + debug_quoted(name@)
            + " not found in the loaded object"@,
        LoaderError::ProgramLoad { name, src } => "failed to load program "@ + debug_quoted(name@)
            + ": "@ + src@,
        LoaderError::Attach { name, ifname, src } => "failed to attach program "@ + debug_quoted(
            name@,
        ) + " to "@ + debug_quoted(ifname@) + ": "@ + src@,
        LoaderError::Unpin { path, src } => "failed to unpin "@ + debug_quoted(path@) + ": "@
            + src@,
        LoaderError::LinkResolve { link, src } => "failed to resolve link "@ + debug_quoted(link@)
            + ": "@ + src@,
        LoaderError::ListPins { prefix, src } => "failed to list pins under "@ + debug_quoted(
            prefix@,
        ) + ": "@ + src@,
        LoaderError::MapNotFound { name } => "map "@ + debug_quoted(name@)
            + " not found in the loaded object"@,
        LoaderError::Partial(v) => decimal(v@.len()) + " required hook(s) failed to attach"@,
        LoaderError::ActorGone => "loader actor is no longer running"@,
    }
}

/// `a`, a quoted `b`, then `c`.
fn around(a: &str, b: &str, c: &str) -> (r: String)
    ensures
        r@ == a@ + debug_quoted(b@) + c@,
{
    let q = quoted(b);
    let r = concat(a, q.as_str());
    concat(r.as_str(), c)
}

impl LoaderError {
    /// The error's message.
    pub fn message(&self) -> (r: String)
        ensures
            r@ == error_text(*self),
    {
        match self {
            LoaderError::ObjectLoad(s) => concat("failed to load eBPF object: ", s.as_str()),
            LoaderError::ProgramNotFound { name } => around(
                "program ",
                name,
                " not found in the loaded object",
            ),
            LoaderError::ProgramLoad { name, src } => {
                let r = around("failed to load program ", name, ": ");
                concat(r.as_str(), src.as_str())
            },
            LoaderError::Attach { name, ifname, src } => {
                let r = around("failed to attach program ", name, " to ");
                let q = around("", ifname.as_str(), ": ");
                let r = concat(r.as_str(), q.as_str());
                proof {
                    reveal_strlit("");
                }
                concat(r.as_str(), src.as_str())
            },
            LoaderError::Unpin { path, src } => {
                let r = around("failed to unpin ", path.as_str(), ": ");
                concat(r.as_str(), src.as_str())
            },
            LoaderError::LinkResolve { link, src } => {
                let r = around("failed to resolve link ", link.as_str(), ": ");
                concat(r.as_str(), src.as_str())
            },
            LoaderError::ListPins { prefix, src } => {
                let r = around("failed to list pins under ", prefix.as_str(), ": ");
                concat(r.as_str(), src.as_str())
            },
            LoaderError::MapNotFound { name } => around(
                "map ",
                name.as_str(),
                " not found in the loaded object",
            ),
            LoaderError::Partial(v) => {
                let n = decimal_string(v.len() as u128);
                concat(n.as_str(), " required hook(s) failed to attach")
            },
            LoaderError::ActorGone => owned("loader actor is no longer running"),
        }
    }
}

/// The first program of `hooks` named `name`.
pub open spec fn first_hook_named(hooks: Seq<(Hook, Seq<char>)>, name: Seq<char>) -> Option<
    (Hook, Seq<char>),
>
    decreases hooks.len(),
{
    if hooks.len() == 0 {
        None
    } else if hooks[0].1 == name {
        Some(hooks[0])
    } else {
        first_hook_named(hooks.drop_first(), name)
    }
}

/// The program of `kind` that a pin file named `filename` belongs to.
pub fn match_pin(kind: EndpointKind, filename: &str) -> (r: Option<HookSpec>)
    ensures
        match r {
            None => first_hook_named(kind_hooks(kind), filename@) is None,
            Some(h) => first_hook_named(kind_hooks(kind), filename@) == Some(
                (h.hook, h.program_name@),
            ) && h.required,
        },
{
    let hooks = kind.hooks();
    let mut i: usize = 0;
    proof {
        assert(kind_hooks(kind).skip(0) =~= kind_hooks(kind));
    }
    while i < hooks.len()
        invariant
            i <= hooks@.len(),
            hooks@.len() == kind_hooks(kind).len(),
            forall|j: int|
                0 <= j < hooks@.len() ==> {
                    &&& (#[trigger] hooks@[j]).hook == kind_hooks(kind)[j].0
                    &&& hooks@[j].program_name@ == kind_hooks(kind)[j].1
                    &&& hooks@[j].required
                },
            first_hook_named(kind_hooks(kind), filename@) == first_hook_named(
                kind_hooks(kind).skip(i as int),
                filename@,
            ),
        decreases hooks.len() - i,
    {
        let h = hooks[i];
        proof {
            let rest = kind_hooks(kind).skip(i as int);
            assert(rest[0] == kind_hooks(kind)[i as int]);
            assert(rest.drop_first() =~= kind_hooks(kind).skip(i + 1));
        }
        if str_eq(h.program_name, filename) {
            return Some(h);
        }
        i = i + 1;
    }
    proof {
        assert(kind_hooks(kind).skip(i as int).len() == 0);
    }
    None
}

/// Name and path pairs, read as text.
pub open spec fn pairs_view(v: Seq<(String, String)>) -> Seq<(Seq<char>, Seq<char>)> {
    v.map_values(|p: (String, String)| (p.0@, p.1@))
}

/// The pin of every global map: (map name, pin path), in pinning order.
pub open spec fn global_pins_spec(root: PinRoot) -> Seq<(Seq<char>, Seq<char>)> {
    all_global_maps().map_values(
        |g: GlobalMap| (global_map_text(g), root.global_map_dir_spec(global_map_text(g))),
    )
}

/// The maps an endpoint's program instance is loaded with: the global
/// pins, then the endpoint's own instance of each per-endpoint map.
pub open spec fn instance_pins_spec(root: PinRoot, kind: EndpointKind, link: Seq<char>) -> Seq<
    (Seq<char>, Seq<char>),
> {
    global_pins_spec(root) + kind_maps(kind).map_values(
        |m: EndpointMap|
            (endpoint_map_text(m), root.per_endpoint_map_dir_spec(endpoint_map_text(m), link)),
    )
}

/// The pin of every global map under `pins`.
pub fn global_map_pins(pins: &PinRoot) -> (r: Vec<(String, String)>)
    ensures
        pairs_view(r@) == global_pins_spec(*pins),
{
    let maps = global_maps();
    let mut r: Vec<(String, String)> = Vec::new();
    let mut i: usize = 0;
    while i < maps.len()
        invariant
            i <= maps@.len(),
            maps@ == all_global_maps(),
            pairs_view(r@) == global_pins_spec(*pins).take(i as int),
        decreases maps.len() - i,
    {
        let name = maps[i].wire_name();
        let path = pins.global_map_dir(name);
        let ghost before = r@;
        r.push((owned(name), path));
        proof {
            assert(pairs_view(r@) =~= pairs_view(before).push((name@, path@)));
            assert(global_pins_spec(*pins)[i as int] == (name@, path@));
            assert(pairs_view(r@) =~= global_pins_spec(*pins).take(i + 1));
        }
        i = i + 1;
    }
    proof {
        assert(global_pins_spec(*pins).take(i as int) =~= global_pins_spec(*pins));
    }
    r
}

/// The maps to load an endpoint's program instance with.
pub fn instance_map_pins(pins: &PinRoot, kind: EndpointKind, link: &str) -> (r: Vec<
    (String, String),
>)
    ensures
        pairs_view(r@) == instance_pins_spec(*pins, kind, link@),
{
    let mut r = global_map_pins(pins);
    let maps = kind.per_endpoint_map_names();
    let ghost base = global_pins_spec(*pins);
    let ghost own = kind_maps(kind).map_values(
        |m: EndpointMap|
            (endpoint_map_text(m), pins.per_endpoint_map_dir_spec(endpoint_map_text(m), link@)),
    );
    let mut i: usize = 0;
    proof {
        assert(pairs_view(r@) =~= base + own.take(0));
    }
    while i < maps.len()
        invariant
            i <= maps@.len(),
            maps@ == kind_maps(kind),
            own.len() == maps@.len(),
            own == kind_maps(kind).map_values(
                |m: EndpointMap|
                    (
                        endpoint_map_text(m),
                        pins.per_endpoint_map_dir_spec(endpoint_map_text(m), link@),
                    ),
            ),
            pairs_view(r@) == base + own.take(i as int),
        decreases maps.len() - i,
    {
        let name = maps[i].wire_name();
        let path = pins.per_endpoint_map_dir(name, link);
        let ghost before = r@;
        r.push((owned(name), path));
        proof {
            assert(pairs_view(r@) =~= pairs_view(before).push((name@, path@)));
            assert(own[i as int] == (name@, path@));
            assert(own.take(i + 1) =~= own.take(i as int).push(own[i as int]));
            assert(pairs_view(r@) =~= base + own.take(i + 1));
        }
        i = i + 1;
    }
    proof {
        assert(own.take(i as int) =~= own);
    }
    r
}

/// Position of the last `/` in `p`, or -1.
pub open spec fn last_slash(p: Seq<char>) -> int
    decreases p.len(),
{
    if p.len() == 0 {
        -1
    } else if p.last() == '/' {
        p.len() - 1
    } else {
        last_slash(p.drop_last())
    }
}

proof fn lemma_last_slash(p: Seq<char>)
    ensures
        -1 <= last_slash(p) < p.len(),
        last_slash(p) >= 0 ==> p[last_slash(p)] == '/',
        forall|i: int| last_slash(p) < i < p.len() ==> p[i] != '/',
    decreases p.len(),
{
    if p.len() > 0 && p.last() != '/' {
        let q = p.drop_last();
        lemma_last_slash(q);
        assert forall|i: int| last_slash(p) < i < p.len() implies p[i] != '/' by {
            if i < p.len() - 1 {
                assert(p[i] == q[i]);
            }
        }
    }
}

/// `p` without the slashes it ends with.
pub open spec fn trim_end_slashes(p: Seq<char>) -> Seq<char>
    decreases p.len(),
{
    if p.len() > 0 && p.last() == '/' {
        trim_end_slashes(p.drop_last())
    } else {
        p
    }
}

proof fn lemma_trim_end_slashes(p: Seq<char>)
    ensures
        trim_end_slashes(p) == p.subrange(0, trim_end_slashes(p).len() as int),
        trim_end_slashes(p).len() <= p.len(),
        trim_end_slashes(p).len() > 0 ==> trim_end_slashes(p).last() != '/',
        forall|i: int| trim_end_slashes(p).len() <= i < p.len() ==> p[i] == '/',
    decreases p.len(),
{
    if p.len() > 0 && p.last() == '/' {
        let q = p.drop_last();
        lemma_trim_end_slashes(q);
        assert(q.subrange(0, trim_end_slashes(q).len() as int) =~= p.subrange(0, trim_end_slashes(q).len() as int));
        assert forall|i: int| trim_end_slashes(p).len() <= i < p.len() implies p[i] == '/' by {
            if i < p.len() - 1 {
                assert(p[i] == q[i]);
            }
        }
    } else {
        assert(p.subrange(0, p.len() as int) =~= p);
    }
}

/// What a pin below the links directory stands for: the endpoint of its
/// directory `<kind>/<link>` and the program named by its file name
/// (slashes at the end of the path are ignored, as path components do).
pub open spec fn pin_entry(path: Seq<char>) -> Option<(EndpointKind, Seq<char>, Seq<char>)> {
    let p = trim_end_slashes(path);
    let s = last_slash(p);
    if s < 0 {
        None
    } else {
        match parse_pin_subpath_spec(p.subrange(0, s)) {
            None => None,
            Some((k, l)) => Some((k, l, p.subrange(s + 1, p.len() as int))),
        }
    }
}

/// The listed pins, read as text.
pub open spec fn texts(v: Seq<String>) -> Seq<Seq<char>> {
    v.map_values(|s: String| s@)
}

/// Whether program `name` of endpoint (`k`, `l`) is among the pins.
pub open spec fn pinned(pins: Seq<Seq<char>>, k: EndpointKind, l: Seq<char>, name: Seq<char>) -> bool {
    exists|j: int| 0 <= j < pins.len() && #[trigger] pin_entry(pins[j]) == Some((k, l, name))
}

/// An endpoint is active when every required program of its kind is
/// pinned (every program of every kind is required).
pub open spec fn is_active(pins: Seq<Seq<char>>, k: EndpointKind, l: Seq<char>) -> bool {
    forall|i: int| 0 <= i < kind_hooks(k).len() ==> pinned(pins, k, l, #[trigger] kind_hooks(k)[i].1)
}

/// Whether `v` lists endpoint (`k`, `l`).
pub open spec fn lists(v: Seq<(EndpointKind, String)>, k: EndpointKind, l: Seq<char>) -> bool {
    exists|i: int| 0 <= i < v.len() && #[trigger] v[i].0 == k && v[i].1@ == l
}

/// No endpoint occurs twice in `v`.
pub open spec fn distinct_endpoints(v: Seq<(EndpointKind, String)>) -> bool {
    forall|i: int, j: int|
        0 <= i < j < v.len() ==> !(#[trigger] v[i].0 == #[trigger] v[j].0 && v[i].1@ == v[j].1@)
}

/// If pin `q` stands for an active endpoint, `v` lists that endpoint.
pub open spec fn entry_listed(v: Seq<(EndpointKind, String)>, pins: Seq<Seq<char>>, q: int) -> bool {
    match pin_entry(pins[q]) {
        Some((k, l, _)) => is_active(pins, k, l) ==> lists(v, k, l),
        None => true,
    }
}

/// Reads one pin path.
pub fn pin_entry_of(p: &str) -> (r: Option<(EndpointKind, String, String)>)
    ensures
        match r {
            None => pin_entry(p@) is None,
            Some((k, l, f)) => pin_entry(p@) == Some((k, l@, f@)),
        },
{
    let full = char_len(p);
    let mut n = full;
    proof {
        lemma_trim_end_slashes(p@);
        assert(p@.subrange(0, full as int) =~= p@);
    }
    while n > 0 && char_at(p, n - 1) == '/'
        invariant
            n <= full,
            full == p@.len(),
            trim_end_slashes(p@) == trim_end_slashes(p@.subrange(0, n as int)),
        decreases n,
    {
        proof {
            assert(p@.subrange(0, n as int).drop_last() =~= p@.subrange(0, n - 1));
        }
        n = n - 1;
    }
    let ghost q = p@.subrange(0, n as int);
    proof {
        assert(trim_end_slashes(q) == q);
        lemma_last_slash(q);
        assert(q.subrange(0, n as int) =~= q);
    }
    let mut i = n;
    while i > 0
        invariant
            i <= n,
            n <= full,
            full == p@.len(),
            q == p@.subrange(0, n as int),
            trim_end_slashes(p@) == q,
            last_slash(q) == last_slash(q.subrange(0, i as int)),
        decreases i,
    {
        if char_at(p, i - 1) == '/' {
            let dir = slice_chars(p, 0, i - 1);
            let file = slice_chars(p, i, n);
            proof {
                assert(q.subrange(0, i as int).last() == '/');
                assert(last_slash(q) == i - 1);
                assert(dir@ =~= q.subrange(0, i - 1));
                assert(file@ =~= q.subrange(i as int, q.len() as int));
            }
            return match PinRoot::parse_pin_subpath(dir.as_str()) {
                None => None,
                Some((k, l)) => Some((k, l, file)),
            };
        }
        proof {
            assert(q.subrange(0, i as int).drop_last() =~= q.subrange(0, i - 1));
        }
        i = i - 1;
    }
    None
}

/// Whether program `name` of endpoint (`k`, `l`) is among `pins`.
fn is_pinned(pins: &Vec<String>, k: EndpointKind, l: &str, name: &str) -> (r: bool)
    ensures
        r == pinned(texts(pins@), k, l@, name@),
{
    let ghost ps = texts(pins@);
    let mut j: usize = 0;
    while j < pins.len()
        invariant
            j <= pins@.len(),
            ps == texts(pins@),
            forall|q: int| 0 <= q < j ==> #[trigger] pin_entry(ps[q]) != Some((k, l@, name@)),
        decreases pins.len() - j,
    {
        match pin_entry_of(pins[j].as_str()) {
            Some((k2, l2, f)) => {
                if k2 == k && str_eq(l2.as_str(), l) && str_eq(f.as_str(), name) {
                    proof {
                        assert(pin_entry(ps[j as int]) == Some((k, l@, name@)));
                    }
                    return true;
                }
            },
            None => {},
        }
        j = j + 1;
    }
    false
}

/// Whether every program of endpoint (`k`, `l`) is among `pins`.
fn all_pinned(pins: &Vec<String>, k: EndpointKind, l: &str) -> (r: bool)
    ensures
        r == is_active(texts(pins@), k, l@),
{
    let hooks = k.hooks();
    let mut i: usize = 0;
    while i < hooks.len()
        invariant
            i <= hooks@.len(),
            hooks@.len() == kind_hooks(k).len(),
            forall|j: int|
                0 <= j < hooks@.len() ==> (#[trigger] hooks@[j]).program_name@ == kind_hooks(
                    k,
                )[j].1,
            forall|j: int|
                0 <= j < i ==> pinned(texts(pins@), k, l@, #[trigger] kind_hooks(k)[j].1),
        decreases hooks.len() - i,
    {
        if !is_pinned(pins, k, l, hooks[i].program_name) {
            return false;
        }
        i = i + 1;
    }
    true
}

/// Whether `v` lists endpoint (`k`, `l`).
fn lists_exec(v: &Vec<(EndpointKind, String)>, k: EndpointKind, l: &str) -> (r: bool)
    ensures
        r == lists(v@, k, l@),
{
    let mut i: usize = 0;
    while i < v.len()
        invariant
            i <= v@.len(),
            forall|q: int| 0 <= q < i ==> !(#[trigger] v@[q].0 == k && v@[q].1@ == l@),
        decreases v.len() - i,
    {
        if v[i].0 == k && str_eq(v[i].1.as_str(), l) {
            return true;
        }
        i = i + 1;
    }
    false
}

/// Whether program `name` of endpoint (`k`, `l`) is among the set of pins.
pub open spec fn pinned_in(pins: Set<Seq<char>>, k: EndpointKind, l: Seq<char>, name: Seq<char>) -> bool {
    exists|q: Seq<char>| pins.contains(q) && #[trigger] pin_entry(q) == Some((k, l, name))
}

/// Endpoint (`k`, `l`) is active in a set of pins: every program of its
/// kind is pinned.
pub open spec fn active_in(pins: Set<Seq<char>>, k: EndpointKind, l: Seq<char>) -> bool {
    forall|i: int| 0 <= i < kind_hooks(k).len() ==> pinned_in(pins, k, l, #[trigger] kind_hooks(k)[i].1)
}

proof fn lemma_active_in_set(ps: Seq<Seq<char>>, k: EndpointKind, l: Seq<char>)
    ensures
        is_active(ps, k, l) == active_in(ps.to_set(), k, l),
{
    assert forall|i: int| 0 <= i < kind_hooks(k).len() implies pinned(ps, k, l, #[trigger] kind_hooks(k)[i].1)
        == pinned_in(ps.to_set(), k, l, kind_hooks(k)[i].1) by {
        let name = kind_hooks(k)[i].1;
        if pinned(ps, k, l, name) {
            let j = choose|j: int| 0 <= j < ps.len() && #[trigger] pin_entry(ps[j]) == Some((k, l, name));
            assert(ps.to_set().contains(ps[j]));
        }
        if pinned_in(ps.to_set(), k, l, name) {
            let q = choose|q: Seq<char>| ps.to_set().contains(q) && #[trigger] pin_entry(q) == Some((k, l, name));
            let j = choose|j: int| 0 <= j < ps.len() && ps[j] == q;
            assert(pin_entry(ps[j]) == Some((k, l, name)));
        }
    }
}

/// `v` lists, once each, exactly the endpoints that `pins` show active.
pub open spec fn active_listing(pins: Set<Seq<char>>, v: Seq<(EndpointKind, String)>) -> bool {
    &&& distinct_endpoints(v)
    &&& forall|i: int| 0 <= i < v.len() ==> active_in(pins, #[trigger] v[i].0, v[i].1@)
    &&& forall|k: EndpointKind, l: Seq<char>| #[trigger] active_in(pins, k, l) ==> lists(v, k, l)
}

/// The endpoints all of whose programs are pinned, given the pins below
/// the links directory; each listed once, in the order in which their
/// pins first appear.
pub fn active_endpoints(pins: &Vec<String>) -> (r: Vec<(EndpointKind, String)>)
    ensures
        active_listing(texts(pins@).to_set(), r@),
        distinct_endpoints(r@),
        forall|i: int| 0 <= i < r@.len() ==> is_active(texts(pins@), #[trigger] r@[i].0, r@[i].1@),
        forall|k: EndpointKind, l: Seq<char>| #[trigger]
            is_active(texts(pins@), k, l) ==> lists(r@, k, l),
{
    let ghost ps = texts(pins@);
    let mut r: Vec<(EndpointKind, String)> = Vec::new();
    let mut j: usize = 0;
    while j < pins.len()
        invariant
            j <= pins@.len(),
            ps == texts(pins@),
            distinct_endpoints(r@),
            forall|i: int| 0 <= i < r@.len() ==> is_active(ps, #[trigger] r@[i].0, r@[i].1@),
            forall|q: int| 0 <= q < j ==> #[trigger] entry_listed(r@, ps, q),
        decreases pins.len() - j,
    {
        match pin_entry_of(pins[j].as_str()) {
            Some((k, l, f)) => {
                if !lists_exec(&r, k, l.as_str()) && all_pinned(pins, k, l.as_str()) {
                    let ghost before = r@;
                    r.push((k, l));
                    proof {
                        assert(r@[before.len() as int].0 == k);
                        assert(r@[before.len() as int].1@ == l@);
                        assert forall|q: int| 0 <= q < j implies #[trigger] entry_listed(r@, ps, q) by {
                            assert(entry_listed(before, ps, q));
                            if let Some((k2, l2, f2)) = pin_entry(ps[q]) {
                                if is_active(ps, k2, l2) {
                                    let w = choose|i: int|
                                        0 <= i < before.len() && #[trigger] before[i].0 == k2
                                            && before[i].1@ == l2;
                                    assert(r@[w] == before[w]);
                                }
                            }
                        }
                    }
                }
                assert(entry_listed(r@, ps, j as int));
            },
            None => {},
        }
        j = j + 1;
    }
    proof {
        assert forall|k: EndpointKind, l: Seq<char>| #[trigger]
            is_active(ps, k, l) implies lists(r@, k, l) by {
            assert(kind_hooks(k).len() > 0);
            assert(pinned(ps, k, l, kind_hooks(k)[0].1));
            let q = choose|q: int|
                0 <= q < ps.len() && #[trigger] pin_entry(ps[q]) == Some((k, l, kind_hooks(k)[0].1));
            assert(entry_listed(r@, ps, q));
        }
        assert forall|i: int| 0 <= i < r@.len() implies active_in(ps.to_set(), #[trigger] r@[i].0, r@[i].1@) by {
            lemma_active_in_set(ps, r@[i].0, r@[i].1@);
        }
        assert forall|k: EndpointKind, l: Seq<char>| #[trigger] active_in(ps.to_set(), k, l) implies lists(r@, k, l) by {
            lemma_active_in_set(ps, k, l);
        }
    }
    r
}

/// The failures of an attach attempt, read as text.
pub open spec fn failures_view(v: Seq<HookFailure>) -> Seq<(Seq<char>, Seq<char>)> {
    v.map_values(|f: HookFailure| (f.hook_name@, f.error@))
}

/// The required programs among `hooks` whose attach `results` are errors,
/// with the error messages, in attach order.
pub open spec fn required_failures(
    hooks: Seq<HookSpec>,
    results: Seq<Result<(), LoaderError>>,
) -> Seq<(Seq<char>, Seq<char>)>
    decreases hooks.len(),
{
    if hooks.len() == 0 || results.len() == 0 {
        seq![]
    } else {
        let prev = required_failures(hooks.drop_last(), results.drop_last());
        match results.last() {
            Err(e) => if hooks.last().required {
                prev.push((hooks.last().program_name@, error_text(e)))
            } else {
                prev
            },
            Ok(_) => prev,
        }
    }
}

/// What attaching the programs `hooks` of an endpoint comes to, given the
/// result of each attach: success when no required program failed, else a
/// partial failure naming every required program that failed.
pub fn attach_outcome(hooks: &Vec<HookSpec>, results: &Vec<Result<(), LoaderError>>) -> (r: Result<
    (),
    LoaderError,
>)
    requires
        hooks@.len() == results@.len(),
    ensures
        match r {
            Ok(()) => required_failures(hooks@, results@).len() == 0,
            Err(LoaderError::Partial(v)) => required_failures(hooks@, results@).len() > 0
                && failures_view(v@) == required_failures(hooks@, results@),
            Err(_) => false,
        },
{
    let mut failures: Vec<HookFailure> = Vec::new();
    let mut i: usize = 0;
    proof {
        assert(hooks@.take(0).len() == 0);
        assert(failures_view(failures@) =~= required_failures(hooks@.take(0), results@.take(0)));
    }
    while i < hooks.len()
        invariant
            i <= hooks@.len(),
            hooks@.len() == results@.len(),
            failures_view(failures@) == required_failures(hooks@.take(i as int), results@.take(i as int)),
        decreases hooks.len() - i,
    {
        let ghost before = failures@;
        proof {
            assert(hooks@.take(i + 1).drop_last() =~= hooks@.take(i as int));
            assert(results@.take(i + 1).drop_last() =~= results@.take(i as int));
            assert(hooks@.take(i + 1).last() == hooks@[i as int]);
            assert(results@.take(i + 1).last() == results@[i as int]);
        }
        match &results[i] {
            Err(e) => {
                if hooks[i].required {
                    let msg = e.message();
                    failures.push(HookFailure { hook_name: hooks[i].program_name, error: msg });
                    proof {
                        assert(failures_view(failures@) =~= failures_view(before).push(
                            (hooks@[i as int].program_name@, error_text(*e)),
                        ));
                    }
                }
            },
            Ok(()) => {},
        }
        i = i + 1;
    }
    proof {
        assert(hooks@.take(i as int) =~= hooks@);
        assert(results@.take(i as int) =~= results@);
    }
    if failures.len() == 0 {
        Ok(())
    } else {
        Err(LoaderError::Partial(failures))
    }
}

/// Endpoints, read as (kind, link text).
pub open spec fn endpoints_view(v: Seq<(EndpointKind, String)>) -> Seq<(EndpointKind, Seq<char>)> {
    v.map_values(|e: (EndpointKind, String)| (e.0, e.1@))
}

/// The endpoints of `existing` that `desired` does not list, in order.
pub open spec fn stale(existing: Seq<(EndpointKind, Seq<char>)>, desired: Seq<(EndpointKind, Seq<char>)>) -> Seq<
    (EndpointKind, Seq<char>),
>
    decreases existing.len(),
{
    if existing.len() == 0 {
        seq![]
    } else {
        let prev = stale(existing.drop_last(), desired);
        if desired.contains(existing.last()) {
            prev
        } else {
            prev.push(existing.last())
        }
    }
}

/// Nothing that `desired` lists is stale, and everything stale exists.
pub proof fn lemma_stale_not_desired(
    existing: Seq<(EndpointKind, Seq<char>)>,
    desired: Seq<(EndpointKind, Seq<char>)>,
)
    ensures
        forall|i: int|
            0 <= i < stale(existing, desired).len() ==> !desired.contains(
                #[trigger] stale(existing, desired)[i],
            ) && existing.contains(stale(existing, desired)[i]),
    decreases existing.len(),
{
    if existing.len() > 0 {
        let e = existing.drop_last();
        lemma_stale_not_desired(e, desired);
        assert forall|i: int| 0 <= i < stale(existing, desired).len() implies !desired.contains(
            #[trigger] stale(existing, desired)[i],
        ) && existing.contains(stale(existing, desired)[i]) by {
            let x = stale(existing, desired)[i];
            if i < stale(e, desired).len() {
                assert(x == stale(e, desired)[i]);
                let w = choose|w: int| 0 <= w < e.len() && e[w] == x;
                assert(existing[w] == x);
            } else {
                assert(existing[existing.len() - 1] == x);
            }
        }
    }
}

/// Whether `desired` lists endpoint (`k`, `l`).
fn wanted(desired: &Vec<(EndpointKind, String)>, k: EndpointKind, l: &str) -> (r: bool)
    ensures
        r == endpoints_view(desired@).contains((k, l@)),
{
    let r = lists_exec(desired, k, l);
    proof {
        let dv = endpoints_view(desired@);
        if r {
            let w = choose|i: int| 0 <= i < desired@.len() && #[trigger] desired@[i].0 == k && desired@[i].1@ == l@;
            assert(dv[w] == (k, l@));
        } else {
            if dv.contains((k, l@)) {
                let w = choose|i: int| 0 <= i < dv.len() && dv[i] == (k, l@);
                assert(desired@[w].0 == k && desired@[w].1@ == l@);
            }
        }
    }
    r
}

/// The endpoints of `existing` that `desired` does not list, in order.
pub fn stale_endpoints(
    existing: &Vec<(EndpointKind, String)>,
    desired: &Vec<(EndpointKind, String)>,
) -> (r: Vec<(EndpointKind, String)>)
    ensures
        endpoints_view(r@) == stale(endpoints_view(existing@), endpoints_view(desired@)),
{
    let ghost ev = endpoints_view(existing@);
    let ghost dv = endpoints_view(desired@);
    let mut r: Vec<(EndpointKind, String)> = Vec::new();
    let mut i: usize = 0;
    proof {
        assert(endpoints_view(r@) =~= stale(ev.take(0), dv));
    }
    while i < existing.len()
        invariant
            i <= existing@.len(),
            ev == endpoints_view(existing@),
            dv == endpoints_view(desired@),
            endpoints_view(r@) == stale(ev.take(i as int), dv),
        decreases existing.len() - i,
    {
        let k = existing[i].0;
        let w = wanted(desired, k, existing[i].1.as_str());
        proof {
            assert(ev.take(i + 1).drop_last() =~= ev.take(i as int));
            assert(ev.take(i + 1).last() == (k, existing@[i as int].1@));
        }
        if !w {
            let ghost before = r@;
            let l = owned(existing[i].1.as_str());
            r.push((k, l));
            proof {
                assert(endpoints_view(r@) =~= endpoints_view(before).push((k, existing@[i as int].1@)));
            }
        }
        i = i + 1;
    }
    proof {
        assert(ev.take(i as int) =~= ev);
    }
    r
}

/// A call made on a backend, with what it gave back: the record a
/// backend keeps of what it was asked to do.
pub enum BackendCall {
    ResolveLink { link: Seq<char>, error: Option<LoaderError> },
    LoadGlobalMaps { maps: Seq<(Seq<char>, Seq<char>)>, error: Option<LoaderError> },
    LoadInstance { link: Seq<char>, maps: Seq<(Seq<char>, Seq<char>)>, error: Option<LoaderError> },
    EnsureAttached {
        program: Seq<char>,
        hook: Hook,
        link_pin_dir: Seq<char>,
        result: Result<(), LoaderError>,
    },
    UnpinMap { path: Seq<char>, result: Result<(), LoaderError> },
    RemovePinDir { dir: Seq<char>, result: Result<(), LoaderError> },
    StopLogging { link: Seq<char> },
    StopAllLogging,
}

/// The error of a result, if it is one.
pub open spec fn error_of<T>(r: Result<T, LoaderError>) -> Option<LoaderError> {
    match r {
        Ok(_) => None,
        Err(e) => Some(e),
    }
}

/// Whether path `q` is directory `dir` or lies below it.
pub open spec fn in_dir(q: Seq<char>, dir: Seq<char>) -> bool {
    q == dir || (dir.len() < q.len() && q.subrange(0, dir.len() as int) == dir && q[dir.len() as int]
        == '/')
}

/// The pins of `pins` below directory `prefix`, as paths relative to it.
pub open spec fn pins_below(pins: Set<Seq<char>>, prefix: Seq<char>) -> Set<Seq<char>> {
    Set::new(|q: Seq<char>| q.len() > 0 && q[0] != '/' && pins.contains(join(prefix, q)))
}

/// What listing the pins below `prefix` gives: the paths relative to it,
/// or the error that listing meets.
pub open spec fn listing_of(pins: Set<Seq<char>>, error: Option<LoaderError>, prefix: Seq<char>) -> Result<
    Set<Seq<char>>,
    LoaderError,
> {
    match error {
        Some(e) => Err(e),
        None => Ok(pins_below(pins, prefix)),
    }
}

/// What the loader needs from the eBPF side: resolving links, loading
/// program instances with their maps, attaching and pinning programs, and
/// removing and listing pins. Paths are `/`-separated text.
///
/// Each operation that acts on the eBPF side is recorded in `calls`,
/// with its arguments and what it returned. The pins the backend holds are
/// `pins`, and `list_pins` answers with those below its prefix unless
/// `list_error` names the error it meets. What a successful operation does
/// to the pins is stated with it (an attached program is pinned under its
/// own name below the link's pin directory); nothing is claimed of whether
/// an operation succeeds, nor of the pins after one that failed.
///
/// These spec functions are the backend's model. An implementation meets
/// the contracts below only by defining them (a ghost record of its calls,
/// and the pins it holds). The default bodies exist so that
/// implementations outside verified code compile; they are unspecified
/// values, which no implementation can meet the contracts with, so for an
/// implementation that keeps them every guarantee of `Loader` rests on
/// nothing.
pub trait BpfBackend {
    /// A loaded program instance, which keeps its maps alive.
    type Instance;
    /// A resolved network link.
    type LinkType;

    /// The operations carried out so far, oldest first.
    closed spec fn calls(&self) -> Seq<BackendCall> {
        arbitrary()
    }

    /// The paths of the pins the backend holds.
    closed spec fn pins(&self) -> Set<Seq<char>> {
        arbitrary()
    }

    /// The error that listing the pins below `prefix` meets, if any.
    closed spec fn list_error(&self, prefix: Seq<char>) -> Option<LoaderError> {
        arbitrary()
    }

    fn resolve_link(&mut self, link: &str) -> (r: Result<Self::LinkType, LoaderError>)
        ensures
            final(self).calls() == old(self).calls().push(
                BackendCall::ResolveLink { link: link@, error: error_of(r) },
            ),
            final(self).pins() == old(self).pins(),
    ;

    /// Loads the object once so that every global map is created and pinned
    /// at the given (name, path) pairs.
    fn load_global_maps(&mut self, maps: &Vec<(String, String)>) -> (r: Result<
        Self::Instance,
        LoaderError,
    >)
        ensures
            final(self).calls() == old(self).calls().push(
                BackendCall::LoadGlobalMaps { maps: pairs_view(maps@), error: error_of(r) },
            ),
            r is Ok ==> old(self).pins().subset_of(final(self).pins()),
    ;

    /// Loads a program instance for `link`, with each named map reused from
    /// (or pinned at) its path.
    fn load_instance(&mut self, link: &str, maps: &Vec<(String, String)>) -> (r: Result<
        Self::Instance,
        LoaderError,
    >)
        ensures
            final(self).calls() == old(self).calls().push(
                BackendCall::LoadInstance { link: link@, maps: pairs_view(maps@), error: error_of(r) },
            ),
            r is Ok ==> old(self).pins().subset_of(final(self).pins()),
    ;

    /// Attaches `program_name` of `instance` at `hook` of `link` and pins
    /// the attachment below `link_pin_dir`, unless it is attached already.
    fn ensure_attached(
        &mut self,
        instance: &mut Self::Instance,
        program_name: &'static str,
        hook: Hook,
        link: &Self::LinkType,
        link_pin_dir: &str,
    ) -> (r: Result<(), LoaderError>)
        ensures
            final(self).calls() == old(self).calls().push(
                BackendCall::EnsureAttached {
                    program: program_name@,
                    hook,
                    link_pin_dir: link_pin_dir@,
                    result: r,
                },
            ),
            r is Ok ==> old(self).pins().insert(join(link_pin_dir@, program_name@)).subset_of(
                final(self).pins(),
            ),
    ;

    fn unpin_map(&mut self, path: &str) -> (r: Result<(), LoaderError>)
        ensures
            final(self).calls() == old(self).calls().push(
                BackendCall::UnpinMap { path: path@, result: r },
            ),
            r is Ok ==> final(self).pins() == old(self).pins().remove(path@),
    ;

    fn remove_pin_dir(&mut self, dir: &str) -> (r: Result<(), LoaderError>)
        ensures
            final(self).calls() == old(self).calls().push(
                BackendCall::RemovePinDir { dir: dir@, result: r },
            ),
            r is Ok ==> final(self).pins() == old(self).pins().filter(
                |q: Seq<char>| !in_dir(q, dir@),
            ),
    ;

    /// The pins below `prefix`, as paths relative to it.
    fn list_pins(&self, prefix: &str) -> (r: Result<Vec<String>, LoaderError>)
        ensures
            match self.list_error(prefix@) {
                None => r matches Ok(v) && texts(v@).to_set() == pins_below(self.pins(), prefix@),
                Some(e) => r == Err::<Vec<String>, LoaderError>(e),
            },
    ;

    fn stop_logging(&mut self, link: &str)
        ensures
            final(self).calls() == old(self).calls().push(BackendCall::StopLogging { link: link@ }),
            final(self).pins() == old(self).pins(),
    ;

    fn stop_all_logging(&mut self)
        ensures
            final(self).calls() == old(self).calls().push(BackendCall::StopAllLogging),
            final(self).pins() == old(self).pins(),
    ;
}

/// The errors of a reconcile pass: first those of adding desired
/// endpoints (each of them desired), then those of removing stale ones
/// (none of them desired).
pub open spec fn reconcile_errors_ok(
    errs: Seq<(EndpointKind, String, LoaderError)>,
    desired: Seq<(EndpointKind, Seq<char>)>,
) -> bool {
    exists|s: int|
        0 <= s <= errs.len() && #[trigger] errors_split_at(errs, desired, s)
}

/// `errs` splits at `s` as a reconcile pass reports them.
pub open spec fn errors_split_at(
    errs: Seq<(EndpointKind, String, LoaderError)>,
    desired: Seq<(EndpointKind, Seq<char>)>,
    s: int,
) -> bool {
    &&& forall|i: int| 0 <= i < s ==> desired.contains((#[trigger] errs[i].0, errs[i].1@))
    &&& forall|i: int| s <= i < errs.len() ==> !desired.contains((#[trigger] errs[i].0, errs[i].1@))
}

/// The calls a backend received after it had received `before`.
pub open spec fn added_calls(before: Seq<BackendCall>, after: Seq<BackendCall>) -> Seq<BackendCall> {
    after.skip(before.len() as int)
}

/// `after` is `before` followed by further calls.
pub open spec fn extends(before: Seq<BackendCall>, after: Seq<BackendCall>) -> bool {
    after == before + added_calls(before, after)
}

/// The names of the programs of a kind, in attach order.
pub open spec fn hook_names(kind: EndpointKind) -> Seq<Seq<char>> {
    kind_hooks(kind).map_values(|p: (Hook, Seq<char>)| p.1)
}

/// The failures among the attach `results` of the required programs
/// `names`, with the error messages, in attach order.
pub open spec fn named_failures(
    names: Seq<Seq<char>>,
    results: Seq<Result<(), LoaderError>>,
) -> Seq<(Seq<char>, Seq<char>)>
    decreases names.len(),
{
    if names.len() == 0 || results.len() == 0 {
        seq![]
    } else {
        let prev = named_failures(names.drop_last(), results.drop_last());
        match results.last() {
            Err(e) => prev.push((names.last(), error_text(e))),
            Ok(_) => prev,
        }
    }
}

/// `r` is what an attach attempt with these failures comes to: success
/// when there are none, else a partial failure listing them.
pub open spec fn outcome_of(r: Result<(), LoaderError>, fails: Seq<(Seq<char>, Seq<char>)>) -> bool {
    match r {
        Ok(()) => fails.len() == 0,
        Err(LoaderError::Partial(v)) => fails.len() > 0 && failures_view(v@) == fails,
        Err(_) => false,
    }
}

/// The result a call records (success for calls that record none).
pub open spec fn call_result(c: BackendCall) -> Result<(), LoaderError> {
    match c {
        BackendCall::EnsureAttached { result, .. } => result,
        BackendCall::UnpinMap { result, .. } => result,
        BackendCall::RemovePinDir { result, .. } => result,
        _ => Ok(()),
    }
}

/// The results the calls `t` record.
pub open spec fn call_results(t: Seq<BackendCall>) -> Seq<Result<(), LoaderError>> {
    t.map_values(|c: BackendCall| call_result(c))
}

/// The `i`th call attaches the `i`th program of `kind` below `dir`.
pub open spec fn attaches_hook(c: BackendCall, kind: EndpointKind, i: int, dir: Seq<char>) -> bool {
    c matches BackendCall::EnsureAttached { program, hook, link_pin_dir, .. } && program
        == kind_hooks(kind)[i].1 && hook == kind_hooks(kind)[i].0 && link_pin_dir == dir
}

/// `t` attaches every program of `kind`, once each, in attach order,
/// below `dir`.
pub open spec fn attach_calls(kind: EndpointKind, dir: Seq<char>, t: Seq<BackendCall>) -> bool {
    &&& t.len() == kind_hooks(kind).len()
    &&& forall|i: int| 0 <= i < t.len() ==> attaches_hook(#[trigger] t[i], kind, i, dir)
}

/// What adding endpoint (`kind`, `link`) under `root` does: resolve the
/// link, and when that fails return its error; else load an instance
/// with `instance_pins_spec`, and when that fails return its error; else
/// attach every program and return what the attach results come to.
pub open spec fn add_outcome(
    root: PinRoot,
    kind: EndpointKind,
    link: Seq<char>,
    t: Seq<BackendCall>,
    r: Result<(), LoaderError>,
) -> bool {
    t.len() >= 1 && match t[0] {
        BackendCall::ResolveLink { link: l0, error: Some(e) } => l0 == link && t.len() == 1 && r
            == Err::<(), LoaderError>(e),
        BackendCall::ResolveLink { link: l0, error: None } => l0 == link && t.len() >= 2 && match t[1] {
            BackendCall::LoadInstance { link: l1, maps, error: Some(e) } => l1 == link && maps
                == instance_pins_spec(root, kind, link) && t.len() == 2 && r == Err::<(), LoaderError>(e),
            BackendCall::LoadInstance { link: l1, maps, error: None } => l1 == link && maps
                == instance_pins_spec(root, kind, link) && attach_calls(
                kind,
                root.endpoint_link_dir_spec(kind, link),
                t.skip(2),
            ) && outcome_of(r, named_failures(hook_names(kind), call_results(t.skip(2)))),
            _ => false,
        },
        _ => false,
    }
}

/// The pins of the per-endpoint maps of endpoint (`kind`, `link`).
pub open spec fn endpoint_map_pins(root: PinRoot, kind: EndpointKind, link: Seq<char>) -> Seq<Seq<char>> {
    kind_maps(kind).map_values(
        |m: EndpointMap| root.per_endpoint_map_dir_spec(endpoint_map_text(m), link),
    )
}

/// `t` unpins `paths` in order, stopping at the first failure, and `r` is
/// that failure, or success when there is none.
pub open spec fn unpins_outcome(paths: Seq<Seq<char>>, t: Seq<BackendCall>, r: Result<(), LoaderError>) -> bool {
    &&& t.len() <= paths.len()
    &&& forall|i: int| 0 <= i < t.len() ==> (#[trigger] t[i] matches BackendCall::UnpinMap { path, .. } && path == paths[i])
    &&& forall|i: int| 0 <= i < t.len() - 1 ==> call_result(#[trigger] t[i]) is Ok
    &&& match r {
        Ok(_) => t.len() == paths.len() && (t.len() > 0 ==> call_result(t.last()) is Ok),
        Err(e) => t.len() > 0 && call_result(t.last()) == Err::<(), LoaderError>(e),
    }
}

/// What removing endpoint (`kind`, `link`) does: stop its log forwarding,
/// remove its link pin directory (returning the error when that fails),
/// then unpin its own maps.
pub open spec fn remove_outcome(
    root: PinRoot,
    kind: EndpointKind,
    link: Seq<char>,
    t: Seq<BackendCall>,
    r: Result<(), LoaderError>,
) -> bool {
    t.len() >= 2 && t[0] == BackendCall::StopLogging { link } && match t[1] {
        BackendCall::RemovePinDir { dir, result: Err(e) } => dir == root.endpoint_link_dir_spec(
            kind,
            link,
        ) && t.len() == 2 && r == Err::<(), LoaderError>(e),
        BackendCall::RemovePinDir { dir, result: Ok(_) } => dir == root.endpoint_link_dir_spec(
            kind,
            link,
        ) && unpins_outcome(endpoint_map_pins(root, kind, link), t.skip(2), r),
        _ => false,
    }
}

/// What tearing everything down does: stop all log forwarding, remove
/// the links directory, then (when that worked) the globals directory; the
/// result is the first failure, or success.
pub open spec fn teardown_outcome(root: PinRoot, t: Seq<BackendCall>, r: Result<(), LoaderError>) -> bool {
    t.len() >= 2 && t[0] == BackendCall::StopAllLogging && match t[1] {
        BackendCall::RemovePinDir { dir, result: Err(e) } => dir == root.links_dir_spec() && t.len()
            == 2 && r == Err::<(), LoaderError>(e),
        BackendCall::RemovePinDir { dir, result: Ok(_) } => dir == root.links_dir_spec() && t.len()
            == 3 && (t[2] matches BackendCall::RemovePinDir { dir: d2, result: r2 } && d2
            == root.globals_dir_spec() && error_of(r2) == error_of(r)),
        _ => false,
    }
}

/// What creating the global maps does: one load that pins every global
/// map at `global_pins_spec`; its error, if any, is the result.
pub open spec fn load_globals_outcome(root: PinRoot, t: Seq<BackendCall>, r: Result<(), LoaderError>) -> bool {
    t == seq![BackendCall::LoadGlobalMaps { maps: global_pins_spec(root), error: error_of(r) }]
}

/// The calls of each segment, one after the other.
pub open spec fn concat_calls(segs: Seq<Seq<BackendCall>>) -> Seq<BackendCall>
    decreases segs.len(),
{
    if segs.len() == 0 {
        Seq::empty()
    } else {
        concat_calls(segs.drop_last()) + segs.last()
    }
}

/// The per-endpoint errors, read as text.
pub open spec fn errors_view(v: Seq<(EndpointKind, String, LoaderError)>) -> Seq<
    (EndpointKind, Seq<char>, LoaderError),
> {
    v.map_values(|x: (EndpointKind, String, LoaderError)| (x.0, x.1@, x.2))
}

/// The endpoints among `eps` whose result in `rs` is an error, each with
/// its error, in order.
pub open spec fn errors_of(
    eps: Seq<(EndpointKind, Seq<char>)>,
    rs: Seq<Result<(), LoaderError>>,
) -> Seq<(EndpointKind, Seq<char>, LoaderError)>
    decreases rs.len(),
{
    if rs.len() == 0 || eps.len() == 0 {
        Seq::empty()
    } else {
        let prev = errors_of(eps.drop_last(), rs.drop_last());
        match rs.last() {
            Err(e) => prev.push((eps.last().0, eps.last().1, e)),
            Ok(_) => prev,
        }
    }
}

/// `adds[i]` are the calls of adding the `i`th desired endpoint, with
/// result `rs[i]`.
pub open spec fn adds_made(
    root: PinRoot,
    desired: Seq<(EndpointKind, Seq<char>)>,
    adds: Seq<Seq<BackendCall>>,
    rs: Seq<Result<(), LoaderError>>,
) -> bool {
    &&& adds.len() == desired.len()
    &&& rs.len() == desired.len()
    &&& forall|i: int|
        0 <= i < desired.len() ==> add_outcome(root, desired[i].0, desired[i].1, #[trigger] adds[i], rs[i])
}

/// `rems[j]` are the calls of removing `gone[j]`, with result `rs[j]`;
/// none of `gone` is desired.
pub open spec fn removes_made(
    root: PinRoot,
    desired: Seq<(EndpointKind, Seq<char>)>,
    gone: Seq<(EndpointKind, Seq<char>)>,
    rems: Seq<Seq<BackendCall>>,
    rs: Seq<Result<(), LoaderError>>,
) -> bool {
    &&& rems.len() == gone.len()
    &&& rs.len() == gone.len()
    &&& forall|j: int| 0 <= j < gone.len() ==> !desired.contains(#[trigger] gone[j])
    &&& forall|j: int|
        0 <= j < gone.len() ==> remove_outcome(root, gone[j].0, gone[j].1, #[trigger] rems[j], rs[j])
}

/// `gone` are the endpoints that `listing` shows active and that are not
/// desired: all of them, and only those.
pub open spec fn removal_targets(
    listing: Set<Seq<char>>,
    desired: Seq<(EndpointKind, Seq<char>)>,
    gone: Seq<(EndpointKind, Seq<char>)>,
) -> bool {
    &&& forall|j: int|
        0 <= j < gone.len() ==> active_in(listing, (#[trigger] gone[j]).0, gone[j].1)
            && !desired.contains(gone[j])
    &&& forall|k: EndpointKind, l: Seq<char>|
        #[trigger] active_in(listing, k, l) && !desired.contains((k, l)) ==> gone.contains((k, l))
}

/// What a reconcile pass does: it adds every desired endpoint in turn, the
/// backend having then received the calls `at` and answering `listing` for
/// the pins below the links directory. When that listing fails, the pass
/// fails with its error and does nothing more; else it removes in turn
/// every endpoint that the listing shows active and that is not desired,
/// and reports the errors of the adds, then those of the removals.
pub open spec fn reconcile_outcome(
    root: PinRoot,
    desired: Seq<(EndpointKind, Seq<char>)>,
    before: Seq<BackendCall>,
    t: Seq<BackendCall>,
    r: Result<Vec<(EndpointKind, String, LoaderError)>, LoaderError>,
    at: Seq<BackendCall>,
    listing: Result<Set<Seq<char>>, LoaderError>,
) -> bool {
    exists|adds: Seq<Seq<BackendCall>>, add_rs: Seq<Result<(), LoaderError>>|
        #[trigger] adds_made(root, desired, adds, add_rs) && at == before + concat_calls(adds)
            && match r {
            Err(e) => t == concat_calls(adds) && listing == Err::<Set<Seq<char>>, LoaderError>(e),
            Ok(errs) => listing matches Ok(ps) && exists|
                gone: Seq<(EndpointKind, Seq<char>)>,
                rems: Seq<Seq<BackendCall>>,
                rem_rs: Seq<Result<(), LoaderError>>,
            |
                #[trigger] removes_made(root, desired, gone, rems, rem_rs) && removal_targets(
                    ps,
                    desired,
                    gone,
                ) && t == concat_calls(adds) + concat_calls(rems) && errors_view(errs@)
                    == errors_of(desired, add_rs) + errors_of(gone, rem_rs),
        }
}

proof fn lemma_stale_complete(
    existing: Seq<(EndpointKind, Seq<char>)>,
    desired: Seq<(EndpointKind, Seq<char>)>,
    x: (EndpointKind, Seq<char>),
)
    requires
        existing.contains(x),
        !desired.contains(x),
    ensures
        stale(existing, desired).contains(x),
    decreases existing.len(),
{
    let e = existing.drop_last();
    if existing.last() == x {
        assert(stale(existing, desired).last() == x);
    } else {
        let w = choose|w: int| 0 <= w < existing.len() && existing[w] == x;
        assert(e[w] == x);
        lemma_stale_complete(e, desired, x);
        let v = choose|v: int| 0 <= v < stale(e, desired).len() && stale(e, desired)[v] == x;
        if !desired.contains(existing.last()) {
            assert(stale(existing, desired)[v] == x);
        }
    }
}

proof fn lemma_removal_targets(
    listing: Set<Seq<char>>,
    ex: Seq<(EndpointKind, String)>,
    desired: Seq<(EndpointKind, Seq<char>)>,
)
    requires
        active_listing(listing, ex),
    ensures
        removal_targets(listing, desired, stale(endpoints_view(ex), desired)),
{
    let ev = endpoints_view(ex);
    let g = stale(ev, desired);
    lemma_stale_not_desired(ev, desired);
    assert forall|j: int| 0 <= j < g.len() implies active_in(listing, (#[trigger] g[j]).0, g[j].1)
        && !desired.contains(g[j]) by {
        assert(!desired.contains(g[j]) && ev.contains(g[j]));
        let w = choose|w: int| 0 <= w < ev.len() && ev[w] == g[j];
        assert(active_in(listing, ex[w].0, ex[w].1@));
    }
    assert forall|k: EndpointKind, l: Seq<char>|
        #[trigger] active_in(listing, k, l) && !desired.contains((k, l)) implies g.contains((k, l)) by {
        assert(lists(ex, k, l));
        let w = choose|w: int| 0 <= w < ex.len() && #[trigger] ex[w].0 == k && ex[w].1@ == l;
        assert(ev[w] == (k, l));
        lemma_stale_complete(ev, desired, (k, l));
    }
}

proof fn lemma_last_slash_after(a: Seq<char>, b: Seq<char>)
    requires
        no_slash(b),
    ensures
        last_slash(a + seq!['/'] + b) == a.len(),
    decreases b.len(),
{
    let p = a + seq!['/'] + b;
    if b.len() == 0 {
        assert(p.last() == '/');
    } else {
        assert(p.last() == b.last());
        assert(p.drop_last() =~= a + seq!['/'] + b.drop_last());
        lemma_last_slash_after(a, b.drop_last());
    }
}

proof fn lemma_program_names(k: EndpointKind, i: int)
    requires
        0 <= i < kind_hooks(k).len(),
    ensures
        is_name(kind_hooks(k)[i].1),
{
    reveal_strlit("from_container");
    reveal_strlit("to_container");
    reveal_strlit("from_host");
    reveal_strlit("to_host");
    reveal_strlit("from_netdev");
    reveal_strlit("to_netdev");
    reveal_strlit("from_overlay");
    reveal_strlit("to_overlay");
    reveal_strlit("from_wireguard");
    reveal_strlit("to_wireguard");
    let n = kind_hooks(k)[i].1;
    assert(n.len() > 1);
    assert forall|j: int| 0 <= j < n.len() implies n[j] != '/' by {
        match k {
            EndpointKind::Container => {
                assert("from_container"@ =~= seq!['f', 'r', 'o', 'm', '_', 'c', 'o', 'n', 't', 'a', 'i', 'n', 'e', 'r']);
                assert("to_container"@ =~= seq!['t', 'o', '_', 'c', 'o', 'n', 't', 'a', 'i', 'n', 'e', 'r']);
            },
            EndpointKind::Host => {
                assert("from_host"@ =~= seq!['f', 'r', 'o', 'm', '_', 'h', 'o', 's', 't']);
                assert("to_host"@ =~= seq!['t', 'o', '_', 'h', 'o', 's', 't']);
            },
            EndpointKind::NetDev => {
                assert("from_netdev"@ =~= seq!['f', 'r', 'o', 'm', '_', 'n', 'e', 't', 'd', 'e', 'v']);
                assert("to_netdev"@ =~= seq!['t', 'o', '_', 'n', 'e', 't', 'd', 'e', 'v']);
            },
            EndpointKind::Overlay => {
                assert("from_overlay"@ =~= seq!['f', 'r', 'o', 'm', '_', 'o', 'v', 'e', 'r', 'l', 'a', 'y']);
                assert("to_overlay"@ =~= seq!['t', 'o', '_', 'o', 'v', 'e', 'r', 'l', 'a', 'y']);
            },
            EndpointKind::Wireguard => {
                assert("from_wireguard"@ =~= seq!['f', 'r', 'o', 'm', '_', 'w', 'i', 'r', 'e', 'g', 'u', 'a', 'r', 'd']);
                assert("to_wireguard"@ =~= seq!['t', 'o', '_', 'w', 'i', 'r', 'e', 'g', 'u', 'a', 'r', 'd']);
            },
        }
    }
    assert(n != seq!['.']);
}

proof fn lemma_links_dir_shape(root: PinRoot)
    ensures
        root.links_dir_spec().len() > 0,
        root.links_dir_spec().last() != '/',
{
    reveal_strlit("links");
    assert("links"@ =~= seq!['l', 'i', 'n', 'k', 's']);
    let r = root@;
    let d = root.links_dir_spec();
    if r.len() == 0 {
    } else if r.last() == '/' {
        assert(d.last() == 's');
    } else {
        assert(d.last() == 's');
    }
}

/// The pin of program `i` of endpoint (`k`, `link`), as a path relative
/// to the links directory, reads back as that program of that endpoint,
/// and it is the program's pin below the endpoint's link directory.
proof fn lemma_program_pin(root: PinRoot, k: EndpointKind, link: Seq<char>, i: int)
    requires
        is_name(link),
        0 <= i < kind_hooks(k).len(),
    ensures
        ({
            let prog = kind_hooks(k)[i].1;
            let q = pin_subpath_spec(k, link) + seq!['/'] + prog;
            &&& q.len() > 0
            &&& q[0] != '/'
            &&& join(root.links_dir_spec(), q) == join(root.endpoint_link_dir_spec(k, link), prog)
            &&& pin_entry(q) == Some((k, link, prog))
        }),
{
    let prog = kind_hooks(k)[i].1;
    lemma_kind_text_plain(k);
    lemma_program_names(k, i);
    lemma_links_dir_shape(root);
    let kt = kind_text(k);
    assert(kt.last() != '/');
    let sub = pin_subpath_spec(k, link);
    assert(sub == kt + seq!['/'] + link);
    assert(sub.last() == link.last());
    let q = sub + seq!['/'] + prog;
    assert(q[0] == kt[0]);
    let links = root.links_dir_spec();
    let dir = root.endpoint_link_dir_spec(k, link);
    assert(dir == links + seq!['/'] + sub);
    assert(dir.last() == link.last());
    assert(join(dir, prog) == dir + seq!['/'] + prog);
    assert(join(links, q) == links + seq!['/'] + q);
    assert(links + seq!['/'] + q =~= dir + seq!['/'] + prog);
    assert(q.last() == prog.last());
    assert(trim_end_slashes(q) == q);
    lemma_last_slash_after(sub, prog);
    assert(q.subrange(0, sub.len() as int) =~= sub);
    assert(q.subrange(sub.len() as int + 1, q.len() as int) =~= prog);
    law_pin_subpath_round_trip(k, link);
}

proof fn lemma_slash_from_props(p: Seq<char>, i: int)
    requires
        0 <= i <= p.len(),
    ensures
        i <= slash_from(p, i) <= p.len(),
        forall|x: int| i <= x < slash_from(p, i) ==> p[x] != '/',
    decreases p.len() - i,
{
    if i < p.len() && p[i] != '/' {
        lemma_slash_from_props(p, i + 1);
    }
}

proof fn lemma_next_normal_name(p: Seq<char>, i: int)
    ensures
        next_normal(p, i) matches Some(x) ==> is_name(x),
    decreases p.len() - i,
{
    if 0 <= i < p.len() {
        if p[i] == '/' {
            lemma_next_normal_name(p, i + 1);
        } else if p.subrange(i, slash_from(p, i)) == seq!['.'] {
            lemma_next_normal_name(p, i + 1);
        } else {
            lemma_slash_from_props(p, i);
            let x = p.subrange(i, slash_from(p, i));
            assert(x.len() > 0) by {
                lemma_slash_from_props(p, i + 1);
            }
            assert forall|j: int| 0 <= j < x.len() implies x[j] != '/' by {
                assert(x[j] == p[i + j]);
            }
        }
    }
}

/// A pin read as belonging to endpoint (`k`, `l`) names its link by a
/// plain file name.
proof fn lemma_pin_entry_name(q: Seq<char>)
    ensures
        pin_entry(q) matches Some((k, l, n)) ==> is_name(l),
{
    let p = trim_end_slashes(q);
    let s = last_slash(p);
    if s >= 0 {
        let d = p.subrange(0, s);
        if d.len() > 0 && d[0] != '/' {
            lemma_next_normal_name(d, slash_from(d, 0));
        }
    }
}

/// The pin of a program of endpoint (`k1`, `l1`) lies in the link
/// directory of endpoint (`k2`, `l2`) only when the endpoints are the same.
#[verifier::spinoff_prover]
#[verifier::rlimit(60)]
proof fn lemma_link_pin_in_dir(
    root: PinRoot,
    k1: EndpointKind,
    l1: Seq<char>,
    prog: Seq<char>,
    k2: EndpointKind,
    l2: Seq<char>,
)
    requires
        is_name(l1),
        is_name(l2),
        is_name(prog),
        in_dir(join(root.endpoint_link_dir_spec(k1, l1), prog), root.endpoint_link_dir_spec(k2, l2)),
    ensures
        k1 == k2 && l1 == l2,
{
    lemma_kind_text_plain(k1);
    lemma_kind_text_plain(k2);
    lemma_links_dir_shape(root);
    let links = root.links_dir_spec();
    let kt1 = kind_text(k1);
    let kt2 = kind_text(k2);
    let d1 = root.endpoint_link_dir_spec(k1, l1);
    let d2 = root.endpoint_link_dir_spec(k2, l2);
    assert(pin_subpath_spec(k1, l1) == kt1 + seq!['/'] + l1);
    assert(pin_subpath_spec(k2, l2) == kt2 + seq!['/'] + l2);
    let pre = links + seq!['/'];
    let a = kt1 + seq!['/'] + l1 + seq!['/'] + prog;
    let b = kt2 + seq!['/'] + l2;
    assert(d1 == pre + (kt1 + seq!['/'] + l1));
    assert(d2 =~= pre + b);
    assert(d1.last() == l1.last());
    let q = join(d1, prog);
    assert(q =~= pre + a);
    let n = pre.len() as int;
    // a is q without the links prefix; b is d2 without it
    assert(forall|x: int| 0 <= x < a.len() ==> q[n + x] == a[x]);
    assert(forall|x: int| 0 <= x < b.len() ==> d2[n + x] == b[x]);
    let m1 = kt1.len() as int;
    let m2 = kt2.len() as int;
    assert(a[m1] == '/');
    assert(b[m2] == '/');
    assert(forall|x: int| 0 <= x < m1 ==> a[x] == kt1[x]);
    assert(forall|x: int| 0 <= x < m2 ==> b[x] == kt2[x]);
    if q == d2 {
        assert(a.len() == b.len());
        assert(a =~= b) by {
            assert forall|x: int| 0 <= x < a.len() implies a[x] == b[x] by {
                assert(q[n + x] == d2[n + x]);
            }
        }
    }
    // in both cases, a agrees with b on b's length, and a continues with a slash
    assert(b.len() <= a.len());
    assert(forall|x: int| 0 <= x < b.len() ==> a[x] == b[x]) by {
        assert forall|x: int| 0 <= x < b.len() implies a[x] == b[x] by {
            if q == d2 {
                assert(q[n + x] == d2[n + x]);
            } else {
                assert(q.subrange(0, d2.len() as int)[n + x] == d2[n + x]);
            }
        }
    }
    // the kinds: first slashes at the same place
    if m1 < m2 {
        assert(a[m1] == b[m1]);
        assert(b[m1] == kt2[m1]);
    }
    if m2 < m1 {
        assert(a[m2] == b[m2]);
        assert(a[m2] == kt1[m2]);
    }
    assert(m1 == m2);
    assert(kt1 =~= kt2) by {
        assert forall|x: int| 0 <= x < m1 implies kt1[x] == kt2[x] by {
            assert(a[x] == b[x]);
        }
    }
    law_kind_text_round_trip(k1);
    law_kind_text_round_trip(k2);
    let m = m1 + 1;
    assert(forall|x: int| 0 <= x < l1.len() ==> a[m + x] == l1[x]);
    assert(forall|x: int| 0 <= x < l2.len() ==> b[m + x] == l2[x]);
    assert(a[m + l1.len()] == '/');
    if l1.len() < l2.len() {
        assert(a[m + l1.len()] == b[m + l1.len()]);
        assert(b[m + l1.len()] == l2[l1.len() as int]);
    }
    if l2.len() < l1.len() {
        // a continues past b with a slash, but l1 holds none there
        if q == d2 {
            assert(false);
        } else {
            assert(q[d2.len() as int] == '/');
            assert(q[n + b.len()] == a[b.len() as int]);
            assert(a[b.len() as int] == l1[l2.len() as int]);
        }
    }
    assert(l1.len() == l2.len());
    assert(l1 =~= l2) by {
        assert forall|x: int| 0 <= x < l1.len() implies l1[x] == l2[x] by {
            assert(a[m + x] == b[m + x]);
        }
    }
}

/// A program's pin below the links directory is never the pin of an
/// endpoint's map below the globals directory.
proof fn lemma_link_pin_not_map_pin(
    root: PinRoot,
    k: EndpointKind,
    l: Seq<char>,
    prog: Seq<char>,
    m: EndpointMap,
    l2: Seq<char>,
)
    requires
        is_name(l),
        is_name(prog),
    ensures
        join(root.endpoint_link_dir_spec(k, l), prog) != root.per_endpoint_map_dir_spec(
            endpoint_map_text(m),
            l2,
        ),
{
    reveal_strlit("links");
    reveal_strlit("globals");
    reveal_strlit("calls_map");
    reveal_strlit("endpoint_config");
    assert("links"@ =~= seq!['l', 'i', 'n', 'k', 's']);
    assert("globals"@ =~= seq!['g', 'l', 'o', 'b', 'a', 'l', 's']);
    lemma_kind_text_plain(k);
    lemma_links_dir_shape(root);
    let r = root@;
    let base = if r.len() == 0 {
        r
    } else if r.last() == '/' {
        r
    } else {
        r + seq!['/']
    };
    let links = root.links_dir_spec();
    let globals = root.globals_dir_spec();
    assert(links =~= base + "links"@);
    assert(globals =~= base + "globals"@);
    let kt = kind_text(k);
    let d = root.endpoint_link_dir_spec(k, l);
    assert(pin_subpath_spec(k, l) == kt + seq!['/'] + l);
    assert(d == links + seq!['/'] + (kt + seq!['/'] + l));
    assert(d.last() == l.last());
    let q = join(d, prog);
    assert(q == d + seq!['/'] + prog);
    let name = endpoint_map_text(m);
    assert(name[0] != '/');
    let x = name + seq!['_'] + l2;
    assert(x[0] == name[0]);
    let mp = root.per_endpoint_map_dir_spec(name, l2);
    assert(mp == globals + seq!['/'] + x);
    let i = base.len() as int;
    assert(q[i] == 'l');
    assert(mp[i] == 'g');
}

/// Every program of endpoint (`k`, `l`) is pinned, under its own name,
/// in the endpoint's link directory.
pub open spec fn endpoint_pinned(pins: Set<Seq<char>>, root: PinRoot, k: EndpointKind, l: Seq<char>) -> bool {
    forall|h: int|
        0 <= h < kind_hooks(k).len() ==> pins.contains(
            join(root.endpoint_link_dir_spec(k, l), #[trigger] kind_hooks(k)[h].1),
        )
}

/// An endpoint whose programs are all pinned is active among the pins
/// below the links directory.
proof fn lemma_pinned_active(root: PinRoot, pins: Set<Seq<char>>, k: EndpointKind, l: Seq<char>)
    requires
        is_name(l),
        endpoint_pinned(pins, root, k, l),
    ensures
        active_in(pins_below(pins, root.links_dir_spec()), k, l),
{
    let ps = pins_below(pins, root.links_dir_spec());
    assert forall|h: int| 0 <= h < kind_hooks(k).len() implies pinned_in(ps, k, l, #[trigger] kind_hooks(k)[h].1) by {
        lemma_program_pin(root, k, l, h);
        let q = pin_subpath_spec(k, l) + seq!['/'] + kind_hooks(k)[h].1;
        assert(pins.contains(join(root.endpoint_link_dir_spec(k, l), kind_hooks(k)[h].1)));
        assert(ps.contains(q));
    }
}

/// Removing another endpoint (its link directory and its maps) leaves the
/// pins of an endpoint in place.
proof fn lemma_removal_keeps(
    root: PinRoot,
    before: Set<Seq<char>>,
    after: Set<Seq<char>>,
    k2: EndpointKind,
    l2: Seq<char>,
    k: EndpointKind,
    l: Seq<char>,
)
    requires
        is_name(l),
        is_name(l2),
        !(k == k2 && l == l2),
        endpoint_pinned(before, root, k, l),
        forall|q: Seq<char>|
            #[trigger] after.contains(q) == (before.contains(q) && !in_dir(
                q,
                root.endpoint_link_dir_spec(k2, l2),
            ) && !endpoint_map_pins(root, k2, l2).contains(q)),
    ensures
        endpoint_pinned(after, root, k, l),
{
    assert forall|h: int| 0 <= h < kind_hooks(k).len() implies after.contains(
        join(root.endpoint_link_dir_spec(k, l), #[trigger] kind_hooks(k)[h].1),
    ) by {
        let prog = kind_hooks(k)[h].1;
        let q = join(root.endpoint_link_dir_spec(k, l), prog);
        lemma_program_names(k, h);
        if in_dir(q, root.endpoint_link_dir_spec(k2, l2)) {
            lemma_link_pin_in_dir(root, k, l, prog, k2, l2);
        }
        if endpoint_map_pins(root, k2, l2).contains(q) {
            let mp = endpoint_map_pins(root, k2, l2);
            let w = choose|w: int| 0 <= w < mp.len() && mp[w] == q;
            lemma_link_pin_not_map_pin(root, k, l, prog, kind_maps(k2)[w], l2);
        }
    }
}

/// An endpoint that a set of pins shows active names its link by a plain
/// file name.
proof fn lemma_active_name(pins: Set<Seq<char>>, k: EndpointKind, l: Seq<char>)
    requires
        active_in(pins, k, l),
    ensures
        is_name(l),
{
    assert(kind_hooks(k).len() > 0);
    assert(pinned_in(pins, k, l, kind_hooks(k)[0].1));
    let q = choose|q: Seq<char>| pins.contains(q) && #[trigger] pin_entry(q) == Some((k, l, kind_hooks(k)[0].1));
    lemma_pin_entry_name(q);
}

/// Every pin of `pins` that reads as a program of an endpoint is written
/// `<kind>/<link>/<program>`, with no empty or `.` components and no
/// trailing slash.
pub open spec fn canonical_pins(pins: Set<Seq<char>>) -> bool {
    forall|q: Seq<char>|
        #[trigger] pins.contains(q) ==> (pin_entry(q) matches Some((k, l, n)) ==> q == pin_subpath_spec(
            k,
            l,
        ) + seq!['/'] + n)
}

/// A program pin lies in its endpoint's link directory.
proof fn lemma_pin_in_own_dir(root: PinRoot, k: EndpointKind, l: Seq<char>, prog: Seq<char>)
    requires
        is_name(l),
        is_name(prog),
    ensures
        in_dir(join(root.endpoint_link_dir_spec(k, l), prog), root.endpoint_link_dir_spec(k, l)),
{
    lemma_kind_text_plain(k);
    lemma_links_dir_shape(root);
    let d = root.endpoint_link_dir_spec(k, l);
    assert(pin_subpath_spec(k, l) == kind_text(k) + seq!['/'] + l);
    assert(d == root.links_dir_spec() + seq!['/'] + (kind_text(k) + seq!['/'] + l));
    assert(d.last() == l.last());
    let q = join(d, prog);
    assert(q == d + seq!['/'] + prog);
    assert(q.subrange(0, d.len() as int) =~= d);
}

proof fn lemma_no_failures_all_ok(names: Seq<Seq<char>>, rs: Seq<Result<(), LoaderError>>)
    requires
        names.len() == rs.len(),
        named_failures(names, rs).len() == 0,
    ensures
        forall|i: int| 0 <= i < rs.len() ==> rs[i] is Ok,
    decreases rs.len(),
{
    if rs.len() > 0 {
        lemma_no_failures_all_ok(names.drop_last(), rs.drop_last());
        assert forall|i: int| 0 <= i < rs.len() implies rs[i] is Ok by {
            if i < rs.len() - 1 {
                assert(rs.drop_last()[i] == rs[i]);
            }
        }
    }
}

proof fn lemma_added(before: Seq<BackendCall>, t: Seq<BackendCall>)
    ensures
        added_calls(before, before + t) == t,
        extends(before, before + t),
{
    assert((before + t).skip(before.len() as int) =~= t);
}

proof fn lemma_required_named(
    hs: Seq<HookSpec>,
    names: Seq<Seq<char>>,
    results: Seq<Result<(), LoaderError>>,
)
    requires
        hs.len() == names.len(),
        forall|i: int| 0 <= i < hs.len() ==> (#[trigger] hs[i]).program_name@ == names[i] && hs[i].required,
    ensures
        required_failures(hs, results) == named_failures(names, results),
    decreases hs.len(),
{
    if hs.len() > 0 && results.len() > 0 {
        lemma_required_named(hs.drop_last(), names.drop_last(), results.drop_last());
        assert(hs.last() == hs[hs.len() - 1]);
    }
}

/// Attaches endpoints through a backend and keeps their pins under one
/// pin root.
pub struct Loader<B: BpfBackend> {
    backend: B,
    pins: PinRoot,
    globals_holder: Option<B::Instance>,
}

impl<B: BpfBackend> Loader<B> {
    /// The pin root.
    pub closed spec fn pin_root(self) -> PinRoot {
        self.pins
    }

    /// Whether the instance that holds the global maps is kept.
    pub closed spec fn holds_globals(self) -> bool {
        self.globals_holder is Some
    }

    /// The calls made on the backend so far.
    pub closed spec fn backend_calls(self) -> Seq<BackendCall> {
        self.backend.calls()
    }

    /// The pins the backend holds.
    pub closed spec fn backend_pins(self) -> Set<Seq<char>> {
        self.backend.pins()
    }

    /// The pins the backend holds below the links directory.
    pub closed spec fn listed_pins(self) -> Result<Set<Seq<char>>, LoaderError> {
        listing_of(
            self.backend.pins(),
            self.backend.list_error(self.pins.links_dir_spec()),
            self.pins.links_dir_spec(),
        )
    }

    /// A loader over `backend` whose pins live under `pin_root`.
    pub fn new(backend: B, pin_root: &str) -> (r: Self)
        ensures
            r.pin_root()@ == pin_root@,
            !r.holds_globals(),
            r.backend_calls() == backend.calls(),
    {
        Loader { backend, pins: PinRoot::new(pin_root), globals_holder: None }
    }

    /// The pin of every global map.
    pub fn global_map_pins(&self) -> (r: Vec<(String, String)>)
        ensures
            pairs_view(r@) == global_pins_spec(self.pin_root()),
    {
        global_map_pins(&self.pins)
    }

    /// Creates and pins every global map, keeping the instance that holds
    /// them.
    /// Whether it succeeds is decided by what the backend's calls return.
    pub fn load_global_maps(&mut self) -> (r: Result<(), LoaderError>)
        ensures
            final(self).pin_root() == old(self).pin_root(),
            r is Ok ==> final(self).holds_globals(),
            r is Err ==> final(self).holds_globals() == old(self).holds_globals(),
            extends(old(self).backend_calls(), final(self).backend_calls()),
            load_globals_outcome(
                old(self).pin_root(),
                added_calls(old(self).backend_calls(), final(self).backend_calls()),
                r,
            ),
    {
        let ghost log0 = self.backend.calls();
        let pins = global_map_pins(&self.pins);
        let res = self.backend.load_global_maps(&pins);
        let ghost t = seq![BackendCall::LoadGlobalMaps { maps: pairs_view(pins@), error: error_of(res) }];
        proof {
            assert(self.backend.calls() =~= log0 + t);
            lemma_added(log0, t);
        }
        match res {
            Ok(holder) => {
                self.globals_holder = Some(holder);
                Ok(())
            },
            Err(e) => Err(e),
        }
    }

    /// Attaches every program of endpoint (`kind`, `link`): resolves the
    /// link, loads an instance with the global maps and the endpoint's own
    /// maps (see `instance_map_pins`), then attaches each program in turn.
    /// A failure to resolve or load is returned as it is; failed required
    /// programs are reported together as a partial failure (see
    /// `attach_outcome`).
    /// Whether it succeeds is decided by what the backend's calls return.
    pub fn add_endpoint(&mut self, kind: EndpointKind, link: &str) -> (r: Result<(), LoaderError>)
        ensures
            final(self).pin_root() == old(self).pin_root(),
            final(self).holds_globals() == old(self).holds_globals(),
            extends(old(self).backend_calls(), final(self).backend_calls()),
            add_outcome(
                old(self).pin_root(),
                kind,
                link@,
                added_calls(old(self).backend_calls(), final(self).backend_calls()),
                r,
            ),
            r is Ok && is_name(link@) ==> active_in(
                pins_below(final(self).backend_pins(), old(self).pin_root().links_dir_spec()),
                kind,
                link@,
            ),
            r is Ok ==> old(self).backend_pins().subset_of(final(self).backend_pins()),
            r is Ok ==> forall|h: int|
                0 <= h < kind_hooks(kind).len() ==> final(self).backend_pins().contains(
                    join(old(self).pin_root().endpoint_link_dir_spec(kind, link@), #[trigger] kind_hooks(kind)[h].1),
                ),
    {
        let ghost log0 = self.backend.calls();
        let ghost root = self.pins;
        let res_link = self.backend.resolve_link(link);
        let ghost t0 = seq![BackendCall::ResolveLink { link: link@, error: error_of(res_link) }];
        proof {
            assert(self.backend.calls() =~= log0 + t0);
        }
        let resolved = match res_link {
            Ok(x) => x,
            Err(e) => {
                proof {
                    lemma_added(log0, t0);
                }
                return Err(e);
            },
        };
        let maps = instance_map_pins(&self.pins, kind, link);
        let res_load = self.backend.load_instance(link, &maps);
        let ghost t1 = t0.push(
            BackendCall::LoadInstance { link: link@, maps: pairs_view(maps@), error: error_of(res_load) },
        );
        proof {
            assert(self.backend.calls() =~= log0 + t1);
        }
        let mut instance = match res_load {
            Ok(x) => x,
            Err(e) => {
                proof {
                    lemma_added(log0, t1);
                }
                return Err(e);
            },
        };
        let link_dir = self.pins.endpoint_link_dir(kind, link);
        let hooks = kind.hooks();
        let mut results: Vec<Result<(), LoaderError>> = Vec::new();
        let ghost mut a: Seq<BackendCall> = Seq::empty();
        proof {
            assert(log0 + t1 + a =~= log0 + t1);
        }
        let mut i: usize = 0;
        while i < hooks.len()
            invariant
                i <= hooks@.len(),
                results@.len() == i,
                a.len() == i,
                self.pins == old(self).pins,
                self.pins == root,
                self.globals_holder is Some == old(self).globals_holder is Some,
                self.backend.calls() == log0 + t1 + a,
                link_dir@ == root.endpoint_link_dir_spec(kind, link@),
                hooks@.len() == kind_hooks(kind).len(),
                forall|j: int|
                    0 <= j < hooks@.len() ==> {
                        &&& (#[trigger] hooks@[j]).hook == kind_hooks(kind)[j].0
                        &&& hooks@[j].program_name@ == kind_hooks(kind)[j].1
                        &&& hooks@[j].required
                    },
                forall|j: int| 0 <= j < i ==> attaches_hook(#[trigger] a[j], kind, j, link_dir@),
                call_results(a) == results@,
                (forall|j: int| 0 <= j < i ==> (#[trigger] results@[j]) is Ok) ==> forall|j: int|
                    0 <= j < i ==> self.backend.pins().contains(
                        join(link_dir@, #[trigger] kind_hooks(kind)[j].1),
                    ),
                (forall|j: int| 0 <= j < i ==> (#[trigger] results@[j]) is Ok) ==> old(
                    self,
                ).backend.pins().subset_of(self.backend.pins()),
            decreases hooks.len() - i,
        {
            let h = hooks[i];
            let res = self.backend.ensure_attached(
                &mut instance,
                h.program_name,
                h.hook,
                &resolved,
                link_dir.as_str(),
            );
            let ghost c = BackendCall::EnsureAttached {
                program: h.program_name@,
                hook: h.hook,
                link_pin_dir: link_dir@,
                result: res,
            };
            proof {
                if forall|j: int| 0 <= j < i + 1 ==> (#[trigger] results@.push(res)[j]) is Ok {
                    assert(results@.push(res)[i as int] == res);
                    assert forall|j: int| 0 <= j < i implies (#[trigger] results@[j]) is Ok by {
                        assert(results@.push(res)[j] == results@[j]);
                    }
                    assert(kind_hooks(kind)[i as int].1 == h.program_name@);
                }
                let a2 = a.push(c);
                assert(self.backend.calls() =~= log0 + t1 + a2);
                assert(call_results(a2) =~= results@.push(res));
                assert forall|j: int| 0 <= j < i + 1 implies attaches_hook(#[trigger] a2[j], kind, j, link_dir@) by {
                    if j < i {
                        assert(a2[j] == a[j]);
                    }
                }
                a = a2;
            }
            results.push(res);
            i = i + 1;
        }
        let r = attach_outcome(&hooks, &results);
        proof {
            lemma_required_named(hooks@, hook_names(kind), results@);
            if r is Ok {
                lemma_no_failures_all_ok(hook_names(kind), results@);
                assert(forall|j: int| 0 <= j < i ==> (#[trigger] results@[j]) is Ok);
            }
            if r is Ok && is_name(link@) {
                let ps = pins_below(self.backend.pins(), root.links_dir_spec());
                assert forall|j: int| 0 <= j < kind_hooks(kind).len() implies pinned_in(
                    ps,
                    kind,
                    link@,
                    #[trigger] kind_hooks(kind)[j].1,
                ) by {
                    lemma_program_pin(root, kind, link@, j);
                    let q = pin_subpath_spec(kind, link@) + seq!['/'] + kind_hooks(kind)[j].1;
                    assert(self.backend.pins().contains(join(link_dir@, kind_hooks(kind)[j].1)));
                    assert(ps.contains(q));
                }
            }
            assert(t1 + a =~= seq![t1[0], t1[1]] + a);
            assert((t1 + a).skip(2) =~= a);
            assert((t1 + a)[0] == t1[0]);
            assert((t1 + a)[1] == t1[1]);
            assert(log0 + t1 + a =~= log0 + (t1 + a));
            lemma_added(log0, t1 + a);
        }
        r
    }

    /// Detaches endpoint (`kind`, `link`): stops its log forwarding,
    /// removes its link pins, then unpins each of its own maps.
    /// Whether it succeeds is decided by what the backend's calls return.
    pub fn remove_endpoint(&mut self, kind: EndpointKind, link: &str) -> (r: Result<(), LoaderError>)
        ensures
            final(self).pin_root() == old(self).pin_root(),
            final(self).holds_globals() == old(self).holds_globals(),
            extends(old(self).backend_calls(), final(self).backend_calls()),
            remove_outcome(
                old(self).pin_root(),
                kind,
                link@,
                added_calls(old(self).backend_calls(), final(self).backend_calls()),
                r,
            ),
            r is Ok ==> forall|q: Seq<char>|
                #[trigger] final(self).backend_pins().contains(q) == (old(self).backend_pins().contains(q)
                    && !in_dir(q, old(self).pin_root().endpoint_link_dir_spec(kind, link@))
                    && !endpoint_map_pins(old(self).pin_root(), kind, link@).contains(q)),
    {
        let ghost log0 = self.backend.calls();
        let ghost root = self.pins;
        let ghost paths = endpoint_map_pins(root, kind, link@);
        self.backend.stop_logging(link);
        let dir = self.pins.endpoint_link_dir(kind, link);
        let res_dir = self.backend.remove_pin_dir(dir.as_str());
        let ghost p1 = self.backend.pins();
        let ghost t1 = seq![
            BackendCall::StopLogging { link: link@ },
            BackendCall::RemovePinDir { dir: dir@, result: res_dir },
        ];
        proof {
            assert(self.backend.calls() =~= log0 + t1);
        }
        if let Err(e) = res_dir {
            proof {
                lemma_added(log0, t1);
            }
            return Err(e);
        }
        let maps = kind.per_endpoint_map_names();
        let ghost mut u: Seq<BackendCall> = Seq::empty();
        proof {
            assert(log0 + t1 + u =~= log0 + t1);
            assert(paths.take(0) =~= Seq::<Seq<char>>::empty());
        }
        let mut i: usize = 0;
        while i < maps.len()
            invariant
                i <= maps@.len(),
                maps@ == kind_maps(kind),
                paths == endpoint_map_pins(root, kind, link@),
                u.len() == i,
                self.pins == old(self).pins,
                self.pins == root,
                self.globals_holder is Some == old(self).globals_holder is Some,
                self.backend.calls() == log0 + t1 + u,
                log0 == old(self).backend.calls(),
                t1.len() == 2,
                t1[0] == (BackendCall::StopLogging { link: link@ }),
                t1[1] matches BackendCall::RemovePinDir { dir: d, result: Ok(_) } && d
                    == root.endpoint_link_dir_spec(kind, link@),
                forall|j: int| 0 <= j < i ==> (#[trigger] u[j] matches BackendCall::UnpinMap { path, .. } && path == paths[j]),
                forall|j: int| 0 <= j < i ==> call_result(#[trigger] u[j]) is Ok,
                p1 == old(self).backend.pins().filter(
                    |q: Seq<char>| !in_dir(q, root.endpoint_link_dir_spec(kind, link@)),
                ),
                forall|q: Seq<char>|
                    #[trigger] self.backend.pins().contains(q) == (p1.contains(q)
                        && !paths.take(i as int).contains(q)),
            decreases maps.len() - i,
        {
            let path = self.pins.per_endpoint_map_dir(maps[i].wire_name(), link);
            let ghost before_pins = self.backend.pins();
            let res = self.backend.unpin_map(path.as_str());
            let ghost c = BackendCall::UnpinMap { path: path@, result: res };
            proof {
                if res is Ok {
                    assert(paths[i as int] == path@);
                    assert forall|q: Seq<char>| #[trigger] self.backend.pins().contains(q) == (p1.contains(q)
                        && !paths.take(i + 1).contains(q)) by {
                        assert(paths.take(i + 1) =~= paths.take(i as int).push(path@));
                        assert(before_pins.contains(q) == (p1.contains(q) && !paths.take(i as int).contains(q)));
                        assert(self.backend.pins() == before_pins.remove(path@));
                        let t0 = paths.take(i as int);
                        let t1 = paths.take(i + 1);
                        if t1.contains(q) {
                            let j = choose|j: int| 0 <= j < t1.len() && t1[j] == q;
                            if j < i {
                                assert(t0[j] == q);
                            }
                        }
                        if t0.contains(q) {
                            let j = choose|j: int| 0 <= j < t0.len() && t0[j] == q;
                            assert(t1[j] == q);
                        }
                        if q == path@ {
                            assert(t1[i as int] == q);
                        }
                    }
                }
                let u2 = u.push(c);
                assert(self.backend.calls() =~= log0 + t1 + u2);
                assert(paths[i as int] == path@);
                assert forall|j: int| 0 <= j < i + 1 implies (#[trigger] u2[j] matches BackendCall::UnpinMap { path, .. } && path == paths[j]) by {
                    if j < i {
                        assert(u2[j] == u[j]);
                    }
                }
                assert forall|j: int| 0 <= j < i implies call_result(#[trigger] u2[j]) is Ok by {
                    assert(u2[j] == u[j]);
                }
                u = u2;
            }
            if let Err(e) = res {
                proof {
                    assert(self.backend.calls() == log0 + t1 + u);
                    assert(u.last() == c);
                    assert((t1 + u).skip(2) =~= u);
                    assert(log0 + t1 + u =~= log0 + (t1 + u));
                    lemma_added(log0, t1 + u);
                }
                return Err(e);
            }
            i = i + 1;
        }
        proof {
            assert((t1 + u).skip(2) =~= u);
            assert(log0 + t1 + u =~= log0 + (t1 + u));
            lemma_added(log0, t1 + u);
            if u.len() > 0 {
                assert(call_result(u[u.len() - 1]) is Ok);
            }
            assert(paths.take(i as int) =~= paths);
        }
        Ok(())
    }

    /// The endpoints all of whose programs are pinned, as the pins below
    /// the links directory show (see `active_endpoints`).
    /// Whether it succeeds is decided by what the backend's calls return.
    pub fn list_active_endpoints(&self) -> (r: Result<Vec<(EndpointKind, String)>, LoaderError>)
        ensures
            match self.listed_pins() {
                Ok(ps) => r matches Ok(v) && active_listing(ps, v@),
                Err(e) => r == Err::<Vec<(EndpointKind, String)>, LoaderError>(e),
            },
    {
        let dir = self.pins.links_dir();
        match self.backend.list_pins(dir.as_str()) {
            Ok(pins) => Ok(active_endpoints(&pins)),
            Err(e) => Err(e),
        }
    }

    /// Brings the attached endpoints in line with `desired`: adds every
    /// desired endpoint (which repairs half-attached ones), then removes
    /// every active endpoint that is not desired. Errors of single
    /// endpoints are collected; only a failure to list the pins aborts.
    /// Whether it succeeds is decided by what the backend's calls return.
    pub fn reconcile(&mut self, desired: &Vec<(EndpointKind, String)>) -> (r: Result<
        Vec<(EndpointKind, String, LoaderError)>,
        LoaderError,
    >)
        ensures
            final(self).pin_root() == old(self).pin_root(),
            final(self).holds_globals() == old(self).holds_globals(),
            r matches Ok(errs) ==> reconcile_errors_ok(errs@, endpoints_view(desired@)),
            r matches Ok(errs) && errs@.len() == 0 ==> forall|j: int|
                0 <= j < desired@.len() && is_name(desired@[j].1@) ==> active_in(
                    pins_below(final(self).backend_pins(), old(self).pin_root().links_dir_spec()),
                    #[trigger] desired@[j].0,
                    desired@[j].1@,
                ),
            r matches Ok(errs) && errs@.len() == 0 && canonical_pins(
                pins_below(final(self).backend_pins(), old(self).pin_root().links_dir_spec()),
            ) ==> forall|k: EndpointKind, l: Seq<char>|
                #[trigger] active_in(
                    pins_below(final(self).backend_pins(), old(self).pin_root().links_dir_spec()),
                    k,
                    l,
                ) ==> endpoints_view(desired@).contains((k, l)),
            extends(old(self).backend_calls(), final(self).backend_calls()),
            exists|mid: B|
                #[trigger] reconcile_outcome(
                    old(self).pin_root(),
                    endpoints_view(desired@),
                    old(self).backend_calls(),
                    added_calls(old(self).backend_calls(), final(self).backend_calls()),
                    r,
                    mid.calls(),
                    listing_of(mid.pins(), mid.list_error(old(self).pin_root().links_dir_spec()), old(self).pin_root().links_dir_spec()),
                ),
    {
        let ghost dv = endpoints_view(desired@);
        let ghost log0 = self.backend.calls();
        let ghost root = self.pins;
        let ghost mut adds: Seq<Seq<BackendCall>> = Seq::empty();
        let ghost mut add_rs: Seq<Result<(), LoaderError>> = Seq::empty();
        let mut errors: Vec<(EndpointKind, String, LoaderError)> = Vec::new();
        proof {
            assert(log0 + concat_calls(adds) =~= log0);
            assert(errors_view(errors@) =~= errors_of(dv.take(0), add_rs));
        }
        let mut i: usize = 0;
        while i < desired.len()
            invariant
                i <= desired@.len(),
                dv == endpoints_view(desired@),
                self.pins == old(self).pins,
                self.pins == root,
                self.globals_holder is Some == old(self).globals_holder is Some,
                forall|j: int| 0 <= j < errors@.len() ==> dv.contains((#[trigger] errors@[j].0, errors@[j].1@)),
                log0 == old(self).backend.calls(),
                self.backend.calls() == log0 + concat_calls(adds),
                adds.len() == i,
                add_rs.len() == i,
                forall|j: int|
                    0 <= j < i ==> add_outcome(root, dv[j].0, dv[j].1, #[trigger] adds[j], add_rs[j]),
                errors_view(errors@) == errors_of(dv.take(i as int), add_rs),
                errors@.len() == 0 ==> forall|j: int|
                    0 <= j < i ==> endpoint_pinned(self.backend.pins(), root, (#[trigger] dv[j]).0, dv[j].1),
            decreases desired.len() - i,
        {
            let k = desired[i].0;
            let ghost calls_before = self.backend.calls();
            let ghost pins_before = self.backend.pins();
            let res = self.add_endpoint(k, desired[i].1.as_str());
            let ghost rg = res;
            proof {
                if res is Ok && errors@.len() == 0 {
                    assert forall|j: int| 0 <= j < i + 1 implies endpoint_pinned(
                        self.backend.pins(),
                        root,
                        (#[trigger] dv[j]).0,
                        dv[j].1,
                    ) by {
                        if j < i {
                            assert(endpoint_pinned(pins_before, root, dv[j].0, dv[j].1));
                        } else {
                            assert(dv[j] == (k, desired@[i as int].1@));
                        }
                    }
                }
            }
            proof {
                let seg = added_calls(calls_before, self.backend.calls());
                let adds2 = adds.push(seg);
                assert(adds2.drop_last() =~= adds);
                assert(self.backend.calls() =~= log0 + concat_calls(adds2));
                assert(dv[i as int] == (k, desired@[i as int].1@));
                assert forall|j: int| 0 <= j < i + 1 implies add_outcome(
                    root,
                    dv[j].0,
                    dv[j].1,
                    #[trigger] adds2[j],
                    add_rs.push(rg)[j],
                ) by {
                    if j < i {
                        assert(adds2[j] == adds[j]);
                        assert(add_rs.push(rg)[j] == add_rs[j]);
                    }
                }
                assert(dv.take(i + 1).drop_last() =~= dv.take(i as int));
                assert(add_rs.push(rg).drop_last() =~= add_rs);
                assert(dv.take(i + 1).last() == dv[i as int]);
                adds = adds2;
            }
            if let Err(e) = res {
                let l = owned(desired[i].1.as_str());
                let ghost before = errors@;
                errors.push((k, l, e));
                proof {
                    assert(dv[i as int] == (k, desired@[i as int].1@));
                    assert forall|j: int| 0 <= j < errors@.len() implies dv.contains(
                        (#[trigger] errors@[j].0, errors@[j].1@),
                    ) by {
                        if j < before.len() {
                            assert(errors@[j] == before[j]);
                        }
                    }
                    assert(errors_view(errors@) =~= errors_view(before).push((k, l@, e)));
                }
            }
            proof {
                add_rs = add_rs.push(rg);
            }
            i = i + 1;
        }
        let ghost split = errors@.len() as int;
        proof {
            assert(dv.take(i as int) =~= dv);
            assert(adds_made(root, dv, adds, add_rs));
        }
        let ghost mid = self.backend;
        let existing = match self.list_active_endpoints() {
            Ok(v) => v,
            Err(e) => {
                proof {
                    lemma_added(log0, concat_calls(adds));
                    let rr = Err::<Vec<(EndpointKind, String, LoaderError)>, LoaderError>(e);
                    assert(reconcile_outcome(
                        root,
                        dv,
                        log0,
                        concat_calls(adds),
                        rr,
                        mid.calls(),
                        listing_of(mid.pins(), mid.list_error(root.links_dir_spec()), root.links_dir_spec()),
                    ));
                    assert(old(self).pin_root() == root);
                    assert(old(self).backend_calls() == log0);
                    assert(added_calls(old(self).backend_calls(), self.backend_calls()) == concat_calls(adds));
                    assert(reconcile_outcome(
                        old(self).pin_root(),
                        endpoints_view(desired@),
                        old(self).backend_calls(),
                        added_calls(old(self).backend_calls(), self.backend_calls()),
                        rr,
                        mid.calls(),
                        listing_of(mid.pins(), mid.list_error(old(self).pin_root().links_dir_spec()), old(self).pin_root().links_dir_spec()),
                    ));
                }
                return Err(e);
            },
        };
        let gone = stale_endpoints(&existing, desired);
        let ghost gv = endpoints_view(gone@);
        let ghost listing = listing_of(mid.pins(), mid.list_error(root.links_dir_spec()), root.links_dir_spec());
        let ghost ps = listing->Ok_0;
        proof {
            lemma_stale_not_desired(endpoints_view(existing@), dv);
            lemma_removal_targets(ps, existing@, dv);
        }
        let ghost mut rems: Seq<Seq<BackendCall>> = Seq::empty();
        let ghost mut rem_rs: Seq<Result<(), LoaderError>> = Seq::empty();
        let ghost pins_mid = mid.pins();
        proof {
            assert(log0 + concat_calls(adds) + concat_calls(rems) =~= log0 + concat_calls(adds));
            assert(errors_of(gv.take(0), rem_rs) =~= Seq::<(EndpointKind, Seq<char>, LoaderError)>::empty());
            assert(errors_view(errors@) =~= errors_of(dv, add_rs) + errors_of(gv.take(0), rem_rs));
        }
        let mut i: usize = 0;
        while i < gone.len()
            invariant
                i <= gone@.len(),
                dv == endpoints_view(desired@),
                gv == endpoints_view(gone@),
                self.pins == old(self).pins,
                self.pins == root,
                self.globals_holder is Some == old(self).globals_holder is Some,
                0 <= split <= errors@.len(),
                endpoints_view(gone@) == stale(endpoints_view(existing@), dv),
                forall|j: int|
                    0 <= j < stale(endpoints_view(existing@), dv).len() ==> !dv.contains(
                        #[trigger] stale(endpoints_view(existing@), dv)[j],
                    ),
                errors_split_at(errors@, dv, split),
                log0 == old(self).backend.calls(),
                adds_made(root, dv, adds, add_rs),
                mid.calls() == log0 + concat_calls(adds),
                removal_targets(ps, dv, gv),
                self.backend.calls() == log0 + concat_calls(adds) + concat_calls(rems),
                rems.len() == i,
                rem_rs.len() == i,
                forall|j: int|
                    0 <= j < i ==> remove_outcome(root, gv[j].0, gv[j].1, #[trigger] rems[j], rem_rs[j]),
                errors_view(errors@) == errors_of(dv, add_rs) + errors_of(gv.take(i as int), rem_rs),
                errors@.len() == 0 ==> forall|j: int|
                    0 <= j < dv.len() && is_name(dv[j].1) ==> endpoint_pinned(
                        self.backend.pins(),
                        root,
                        (#[trigger] dv[j]).0,
                        dv[j].1,
                    ),
                mid.pins() == pins_mid,
                errors@.len() == 0 ==> self.backend.pins().subset_of(pins_mid),
                errors@.len() == 0 ==> forall|j: int, q: Seq<char>|
                    0 <= j < i && #[trigger] in_dir(q, root.endpoint_link_dir_spec(gv[j].0, gv[j].1))
                        ==> !self.backend.pins().contains(q),
            decreases gone.len() - i,
        {
            let k = gone[i].0;
            let ghost calls_before = self.backend.calls();
            let ghost pins_before = self.backend_pins();
            let res = self.remove_endpoint(k, gone[i].1.as_str());
            let ghost rg = res;
            proof {
                if res is Ok && errors@.len() == 0 {
                    let l2 = gone@[i as int].1@;
                    assert(gv[i as int] == (k, l2));
                    assert(active_in(ps, gv[i as int].0, gv[i as int].1));
                    lemma_active_name(ps, k, l2);
                    assert(!dv.contains((k, l2)));
                    assert forall|j: int| 0 <= j < dv.len() && is_name(dv[j].1) implies endpoint_pinned(
                        self.backend.pins(),
                        root,
                        (#[trigger] dv[j]).0,
                        dv[j].1,
                    ) by {
                        assert(endpoint_pinned(pins_before, root, dv[j].0, dv[j].1));
                        if dv[j].0 == k && dv[j].1 == l2 {
                            assert(dv.contains((k, l2)));
                        }
                        lemma_removal_keeps(root, pins_before, self.backend_pins(), k, l2, dv[j].0, dv[j].1);
                    }
                    assert(self.backend.pins().subset_of(pins_mid)) by {
                        assert forall|q: Seq<char>| #[trigger] self.backend.pins().contains(q) implies pins_mid.contains(q) by {
                            assert(self.backend_pins().contains(q));
                            assert(pins_before.contains(q));
                        }
                    }
                    assert forall|j: int, q: Seq<char>|
                        0 <= j < i + 1 && #[trigger] in_dir(q, root.endpoint_link_dir_spec(gv[j].0, gv[j].1))
                        implies !self.backend.pins().contains(q) by {
                        assert(self.backend_pins().contains(q) ==> pins_before.contains(q));
                        if j == i {
                            assert(!self.backend_pins().contains(q));
                        }
                    }
                }
            }
            proof {
                let seg = added_calls(calls_before, self.backend.calls());
                let rems2 = rems.push(seg);
                assert(rems2.drop_last() =~= rems);
                assert(self.backend.calls() =~= log0 + concat_calls(adds) + concat_calls(rems2));
                assert(gv[i as int] == (k, gone@[i as int].1@));
                assert forall|j: int| 0 <= j < i + 1 implies remove_outcome(
                    root,
                    gv[j].0,
                    gv[j].1,
                    #[trigger] rems2[j],
                    rem_rs.push(rg)[j],
                ) by {
                    if j < i {
                        assert(rems2[j] == rems[j]);
                        assert(rem_rs.push(rg)[j] == rem_rs[j]);
                    }
                }
                assert(gv.take(i + 1).drop_last() =~= gv.take(i as int));
                assert(rem_rs.push(rg).drop_last() =~= rem_rs);
                assert(gv.take(i + 1).last() == gv[i as int]);
                rems = rems2;
            }
            if let Err(e) = res {
                let l = owned(gone[i].1.as_str());
                let ghost before = errors@;
                errors.push((k, l, e));
                proof {
                    assert(endpoints_view(gone@)[i as int] == (k, gone@[i as int].1@));
                    assert(!dv.contains((k, gone@[i as int].1@)));
                    assert forall|j: int| 0 <= j < split implies dv.contains(
                        (#[trigger] errors@[j].0, errors@[j].1@),
                    ) by {
                        assert(errors@[j] == before[j]);
                    }
                    assert forall|j: int| split <= j < errors@.len() implies !dv.contains(
                        (#[trigger] errors@[j].0, errors@[j].1@),
                    ) by {
                        if j < before.len() {
                            assert(errors@[j] == before[j]);
                        }
                    }
                    assert(errors_view(errors@) =~= errors_view(before).push((k, l@, e)));
                    assert(errors_of(gv.take(i + 1), rem_rs.push(rg)) == errors_of(gv.take(i as int), rem_rs).push((k, l@, e)));
                    assert(errors_view(errors@) =~= errors_of(dv, add_rs) + errors_of(gv.take(i + 1), rem_rs.push(rg)));
                }
            } else {
                proof {
                    assert(errors_of(gv.take(i + 1), rem_rs.push(rg)) == errors_of(gv.take(i as int), rem_rs));
                }
            }
            proof {
                rem_rs = rem_rs.push(rg);
            }
            i = i + 1;
        }
        proof {
            if errors@.len() == 0 && canonical_pins(pins_below(self.backend_pins(), root.links_dir_spec())) {
                let e = pins_below(self.backend_pins(), root.links_dir_spec());
                assert forall|k: EndpointKind, l: Seq<char>| #[trigger] active_in(e, k, l) implies dv.contains((k, l)) by {
                    lemma_active_name(e, k, l);
                    if !dv.contains((k, l)) {
                        assert(kind_hooks(k).len() > 0);
                        let n0 = kind_hooks(k)[0].1;
                        assert(pinned_in(e, k, l, n0));
                        let q0 = choose|q: Seq<char>| e.contains(q) && #[trigger] pin_entry(q) == Some((k, l, n0));
                        assert(q0 == pin_subpath_spec(k, l) + seq!['/'] + n0);
                        lemma_program_pin(root, k, l, 0);
                        lemma_program_names(k, 0);
                        let abs = join(root.endpoint_link_dir_spec(k, l), n0);
                        assert(self.backend.pins().contains(abs));
                        // active at the listing as well, so it was removed
                        assert(active_in(ps, k, l)) by {
                            assert forall|h: int| 0 <= h < kind_hooks(k).len() implies pinned_in(ps, k, l, #[trigger] kind_hooks(k)[h].1) by {
                                assert(pinned_in(e, k, l, kind_hooks(k)[h].1));
                                let qq = choose|q: Seq<char>| e.contains(q) && #[trigger] pin_entry(q) == Some((k, l, kind_hooks(k)[h].1));
                                assert(pins_mid.contains(join(root.links_dir_spec(), qq)));
                                assert(ps.contains(qq));
                            }
                        }
                        assert(gv.contains((k, l)));
                        let w = choose|w: int| 0 <= w < gv.len() && gv[w] == (k, l);
                        lemma_pin_in_own_dir(root, k, l, n0);
                        assert(in_dir(abs, root.endpoint_link_dir_spec(gv[w].0, gv[w].1)));
                    }
                }
            }
            if errors@.len() == 0 {
                assert forall|j: int| 0 <= j < desired@.len() && is_name(desired@[j].1@) implies active_in(
                    pins_below(self.backend_pins(), root.links_dir_spec()),
                    #[trigger] desired@[j].0,
                    desired@[j].1@,
                ) by {
                    assert(dv[j] == (desired@[j].0, desired@[j].1@));
                    lemma_pinned_active(root, self.backend.pins(), dv[j].0, dv[j].1);
                }
            }
            assert(errors_split_at(errors@, dv, split));
            assert(gv.take(i as int) =~= gv);
            assert(removes_made(root, dv, gv, rems, rem_rs));
            assert(log0 + concat_calls(adds) + concat_calls(rems) =~= log0 + (concat_calls(adds) + concat_calls(rems)));
            lemma_added(log0, concat_calls(adds) + concat_calls(rems));
            assert(reconcile_outcome(
                root,
                dv,
                log0,
                added_calls(log0, self.backend.calls()),
                Ok::<Vec<(EndpointKind, String, LoaderError)>, LoaderError>(errors),
                mid.calls(),
                listing,
            ));
            assert(old(self).pin_root() == root);
            assert(old(self).backend_calls() == log0);
            assert(reconcile_outcome(
                old(self).pin_root(),
                endpoints_view(desired@),
                old(self).backend_calls(),
                added_calls(old(self).backend_calls(), self.backend_calls()),
                Ok::<Vec<(EndpointKind, String, LoaderError)>, LoaderError>(errors),
                mid.calls(),
                listing_of(mid.pins(), mid.list_error(old(self).pin_root().links_dir_spec()), old(self).pin_root().links_dir_spec()),
            ));
        }
        Ok(errors)
    }

    /// Removes every link pin and every map pin, and drops the instance
    /// that held the global maps.
    /// Whether it succeeds is decided by what the backend's calls return.
    pub fn teardown_all(&mut self) -> (r: Result<(), LoaderError>)
        ensures
            final(self).pin_root() == old(self).pin_root(),
            r is Ok ==> !final(self).holds_globals(),
            r is Err ==> final(self).holds_globals() == old(self).holds_globals(),
            extends(old(self).backend_calls(), final(self).backend_calls()),
            teardown_outcome(
                old(self).pin_root(),
                added_calls(old(self).backend_calls(), final(self).backend_calls()),
                r,
            ),
    {
        let ghost log0 = self.backend.calls();
        self.backend.stop_all_logging();
        let links = self.pins.links_dir();
        let res_links = self.backend.remove_pin_dir(links.as_str());
        let ghost t1 = seq![
            BackendCall::StopAllLogging,
            BackendCall::RemovePinDir { dir: links@, result: res_links },
        ];
        proof {
            assert(self.backend.calls() =~= log0 + t1);
        }
        if let Err(e) = res_links {
            proof {
                lemma_added(log0, t1);
            }
            return Err(e);
        }
        let globals = self.pins.globals_dir();
        let res_globals = self.backend.remove_pin_dir(globals.as_str());
        let ghost t2 = t1.push(BackendCall::RemovePinDir { dir: globals@, result: res_globals });
        proof {
            assert(self.backend.calls() =~= log0 + t2);
            lemma_added(log0, t2);
        }
        match res_globals {
            Ok(()) => {
                self.globals_holder = None;
                Ok(())
            },
            Err(e) => Err(e),
        }
    }
}

/// A request to the loader, as a caller hands it over.
#[derive(Debug)]
pub enum LoaderCommand {
    AddEndpoint { kind: EndpointKind, link: String },
    RemoveEndpoint { kind: EndpointKind, link: String },
    ListActiveEndpoints,
    Reconcile { desired: Vec<(EndpointKind, String)> },
    TeardownAll,
}

/// The loader's answer to a request, of the request's kind.
#[derive(Debug)]
pub enum LoaderReply {
    AddEndpoint(Result<(), LoaderError>),
    RemoveEndpoint(Result<(), LoaderError>),
    ListActiveEndpoints(Result<Vec<(EndpointKind, String)>, LoaderError>),
    Reconcile(Result<Vec<(EndpointKind, String, LoaderError)>, LoaderError>),
    TeardownAll(Result<(), LoaderError>),
}

impl<B: BpfBackend> Loader<B> {
    /// Carries out one request and answers it with the result of the
    /// matching operation.
    pub fn handle(&mut self, cmd: LoaderCommand) -> (r: LoaderReply)
        ensures
            final(self).pin_root() == old(self).pin_root(),
            extends(old(self).backend_calls(), final(self).backend_calls()),
            match cmd {
                LoaderCommand::AddEndpoint { kind, link } => r matches LoaderReply::AddEndpoint(x)
                    && add_outcome(
                    old(self).pin_root(),
                    kind,
                    link@,
                    added_calls(old(self).backend_calls(), final(self).backend_calls()),
                    x,
                ),
                LoaderCommand::RemoveEndpoint { kind, link } => r matches LoaderReply::RemoveEndpoint(
                    x,
                ) && remove_outcome(
                    old(self).pin_root(),
                    kind,
                    link@,
                    added_calls(old(self).backend_calls(), final(self).backend_calls()),
                    x,
                ),
                LoaderCommand::ListActiveEndpoints => r matches LoaderReply::ListActiveEndpoints(x)
                    && final(self).backend_calls() == old(self).backend_calls() && match old(
                    self,
                ).listed_pins() {
                    Ok(ps) => x matches Ok(v) && active_listing(ps, v@),
                    Err(e) => x == Err::<Vec<(EndpointKind, String)>, LoaderError>(e),
                },
                LoaderCommand::Reconcile { desired } => r matches LoaderReply::Reconcile(x) && exists|
                    mid: B,
                |
                    #[trigger] reconcile_outcome(
                        old(self).pin_root(),
                        endpoints_view(desired@),
                        old(self).backend_calls(),
                        added_calls(old(self).backend_calls(), final(self).backend_calls()),
                        x,
                        mid.calls(),
                        listing_of(mid.pins(), mid.list_error(old(self).pin_root().links_dir_spec()), old(self).pin_root().links_dir_spec()),
                    ),
                LoaderCommand::TeardownAll => r matches LoaderReply::TeardownAll(x) && teardown_outcome(
                    old(self).pin_root(),
                    added_calls(old(self).backend_calls(), final(self).backend_calls()),
                    x,
                ),
            },
    {
        match cmd {
            LoaderCommand::AddEndpoint { kind, link } => LoaderReply::AddEndpoint(
                self.add_endpoint(kind, link.as_str()),
            ),
            LoaderCommand::RemoveEndpoint { kind, link } => LoaderReply::RemoveEndpoint(
                self.remove_endpoint(kind, link.as_str()),
            ),
            LoaderCommand::ListActiveEndpoints => {
                let x = self.list_active_endpoints();
                proof {
                    lemma_added(self.backend_calls(), Seq::empty());
                    assert(self.backend_calls() + Seq::<BackendCall>::empty() =~= self.backend_calls());
                }
                LoaderReply::ListActiveEndpoints(x)
            },
            LoaderCommand::Reconcile { desired } => LoaderReply::Reconcile(self.reconcile(&desired)),
            LoaderCommand::TeardownAll => LoaderReply::TeardownAll(self.teardown_all()),
        }
    }
}

} // verus!
