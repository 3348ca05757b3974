//! The on-disk layout of every pin the loader touches, all under one root:
//!
//! ```text
//! <root>/links/<kind>/<link>/<prog_name>
//! <root>/globals/<map_name>         global maps
//! <root>/globals/<map_name>_<link>  per-endpoint maps
//! ```
//!
//! Paths are plain strings joined the way a Unix path is extended: a part
//! that starts with `/` replaces the path, otherwise it is appended after a
//! `/` separator unless the path is empty or already ends in one.
use vstd::prelude::*;

use crate::endpoint::{kind_from_text, kind_text, law_kind_text_round_trip, EndpointKind};
use crate::text::{char_at, char_len, concat, owned, slice_chars, str_eq};

verus! {

/// `base` extended by the relative or absolute path `part`.
pub open spec fn join(base: Seq<char>, part: Seq<char>) -> Seq<char> {
    if part.len() > 0 && part[0] == '/' {
        part
    } else if base.len() == 0 {
        part
    } else if base.last() == '/' {
        base + part
    } else {
        base + seq!['/'] + part
    }
}

/// Position of the first `/` at or after `i`, or the length of `p` when
/// there is none.
pub open spec fn slash_from(p: Seq<char>, i: int) -> int
    decreases p.len() - i,
{
    if i >= p.len() {
        p.len() as int
    } else if p[i] == '/' {
        i
    } else {
        slash_from(p, i + 1)
    }
}

/// The first path component at or after `i` that names something, skipping
/// empty components and `.`.
pub open spec fn next_normal(p: Seq<char>, i: int) -> Option<Seq<char>>
    decreases p.len() - i,
{
    if i < 0 || i >= p.len() {
        None
    } else if p[i] == '/' {
        next_normal(p, i + 1)
    } else if p.subrange(i, slash_from(p, i)) == seq!['.'] {
        next_normal(p, i + 1)
    } else {
        Some(p.subrange(i, slash_from(p, i)))
    }
}

/// The kind and link named by a `<kind>/<link>` path relative to the links
/// directory.
pub open spec fn parse_pin_subpath_spec(p: Seq<char>) -> Option<(EndpointKind, Seq<char>)> {
    if p.len() == 0 || p[0] == '/' {
        None
    } else {
        match kind_from_text(p.subrange(0, slash_from(p, 0))) {
            None => None,
            Some(k) => match next_normal(p, slash_from(p, 0)) {
                None => None,
                Some(l) => Some((k, l)),
            },
        }
    }
}

/// `<kind>/<link>`.
pub open spec fn pin_subpath_spec(kind: EndpointKind, link: Seq<char>) -> Seq<char> {
    join(kind_text(kind), link)
}

/// Whether `s` holds no `/`.
pub open spec fn no_slash(s: Seq<char>) -> bool {
    forall|i: int| 0 <= i < s.len() ==> s[i] != '/'
}

/// Whether `s` is a path component naming a file or directory.
pub open spec fn is_name(s: Seq<char>) -> bool {
    s.len() > 0 && no_slash(s) && s != seq!['.']
}

/// The root under which every pin lives.
#[derive(Clone, Debug)]
pub struct PinRoot(String);

impl View for PinRoot {
    type V = Seq<char>;

    closed spec fn view(&self) -> Seq<char> {
        self.0@
    }
}

impl PinRoot {
    pub open spec fn links_dir_spec(self) -> Seq<char> {
        join(self@, "links"@)
    }

    pub open spec fn globals_dir_spec(self) -> Seq<char> {
        join(self@, "globals"@)
    }

    pub open spec fn endpoint_link_dir_spec(self, kind: EndpointKind, link: Seq<char>) -> Seq<
        char,
    > {
        join(self.links_dir_spec(), pin_subpath_spec(kind, link))
    }

    pub open spec fn per_endpoint_map_dir_spec(self, map_name: Seq<char>, link: Seq<char>) -> Seq<
        char,
    > {
        join(self.globals_dir_spec(), map_name + seq!['_'] + link)
    }

    pub open spec fn global_map_dir_spec(self, map_name: Seq<char>) -> Seq<char> {
        join(self.globals_dir_spec(), map_name)
    }

    /// Pins rooted at `root`.
    pub fn new(root: &str) -> (r: Self)
        ensures
            r@ == root@,
    {
        PinRoot(owned(root))
    }

    /// The root directory.
    pub fn root(&self) -> (r: &str)
        ensures
            r@ == self@,
    {
        self.0.as_str()
    }

    /// `<root>/links`.
    pub fn links_dir(&self) -> (r: String)
        ensures
            r@ == self.links_dir_spec(),
    {
        join_path(self.0.as_str(), "links")
    }

    /// `<root>/globals`.
    pub fn globals_dir(&self) -> (r: String)
        ensures
            r@ == self.globals_dir_spec(),
    {
        join_path(self.0.as_str(), "globals")
    }

    /// `<root>/links/<kind>/<link>`: where the programs of one endpoint are
    /// pinned.
    pub fn endpoint_link_dir(&self, kind: EndpointKind, link: &str) -> (r: String)
        ensures
            r@ == self.endpoint_link_dir_spec(kind, link@),
    {
        let links = self.links_dir();
        let sub = pin_subpath(kind, link);
        join_path(links.as_str(), sub.as_str())
    }

    /// `<root>/globals/<map_name>_<link>`: the pin of one endpoint's own
    /// instance of a map.
    pub fn per_endpoint_map_dir(&self, map_name: &str, link: &str) -> (r: String)
        ensures
            r@ == self.per_endpoint_map_dir_spec(map_name@, link@),
    {
        let globals = self.globals_dir();
        let name = concat(map_name, "_");
        let name = concat(name.as_str(), link);
        proof {
            reveal_strlit("_");
        }
        join_path(globals.as_str(), name.as_str())
    }

    /// `<root>/globals/<map_name>`: the pin of a global map.
    pub fn global_map_dir(&self, map_name: &str) -> (r: String)
        ensures
            r@ == self.global_map_dir_spec(map_name@),
    {
        let globals = self.globals_dir();
        join_path(globals.as_str(), map_name)
    }

    /// Reads a `<kind>/<link>` path (relative to the links directory) back
    /// into the endpoint it belongs to. Anything whose first component is
    /// not a kind name, or that has no second component, is rejected.
    pub fn parse_pin_subpath(path: &str) -> (r: Option<(EndpointKind, String)>)
        ensures
            match r {
                None => parse_pin_subpath_spec(path@) is None,
                Some((k, l)) => parse_pin_subpath_spec(path@) == Some((k, l@)),
            },
    {
        let n = char_len(path);
        if n == 0 || char_at(path, 0) == '/' {
            return None;
        }
        let e = find_slash(path, 0);
        let seg0 = slice_chars(path, 0, e);
        let kind = match EndpointKind::from_kind_str(seg0.as_str()) {
            Some(k) => k,
            None => return None,
        };
        let ghost target = next_normal(path@, e as int);
        let mut i = e;
        proof {
            reveal_strlit(".");
            assert("."@ =~= seq!['.']);
        }
        while i < n
            invariant
                n == path@.len(),
                n > 0 && path@[0] != '/',
                e == slash_from(path@, 0),
                kind_from_text(path@.subrange(0, e as int)) == Some(kind),
                target == next_normal(path@, e as int),
                "."@ == seq!['.'],
                e <= i <= n,
                next_normal(path@, i as int) == target,
            decreases n - i,
        {
            if char_at(path, i) == '/' {
                i = i + 1;
            } else {
                let e2 = find_slash(path, i);
                let seg = slice_chars(path, i, e2);
                if str_eq(seg.as_str(), ".") {
                    i = i + 1;
                } else {
                    return Some((kind, seg));
                }
            }
        }
        None
    }
}

/// `<kind>/<link>`.
pub fn pin_subpath(kind: EndpointKind, link: &str) -> (r: String)
    ensures
        r@ == pin_subpath_spec(kind, link@),
{
    join_path(kind.kind_str(), link)
}

/// Position of the first `/` at or after `from`, or the length of `s`.
fn find_slash(s: &str, from: usize) -> (r: usize)
    requires
        from <= s@.len(),
    ensures
        r == slash_from(s@, from as int),
        from <= r <= s@.len(),
{
    let n = char_len(s);
    let mut i = from;
    while i < n
        invariant
            n == s@.len(),
            from <= i <= n,
            slash_from(s@, i as int) == slash_from(s@, from as int),
        decreases n - i,
    {
        if char_at(s, i) == '/' {
            return i;
        }
        i = i + 1;
    }
    i
}

/// `base` extended by `part`, as described by `join`.
pub fn join_path(base: &str, part: &str) -> (r: String)
    ensures
        r@ == join(base@, part@),
{
    let pn = char_len(part);
    if pn > 0 && char_at(part, 0) == '/' {
        return owned(part);
    }
    let bn = char_len(base);
    if bn == 0 {
        return owned(part);
    }
    if char_at(base, bn - 1) == '/' {
        return concat(base, part);
    }
    let with_sep = concat(base, "/");
    proof {
        reveal_strlit("/");
    }
    concat(with_sep.as_str(), part)
}

proof fn lemma_slash_from_segment(p: Seq<char>, i: int, j: int)
    requires
        0 <= i <= j <= p.len(),
        forall|x: int| i <= x < j ==> p[x] != '/',
        j == p.len() || p[j] == '/',
    ensures
        slash_from(p, i) == j,
    decreases j - i,
{
    if i < j {
        lemma_slash_from_segment(p, i + 1, j);
    }
}

pub(crate) proof fn lemma_kind_text_plain(k: EndpointKind)
    ensures
        is_name(kind_text(k)),
        kind_text(k)[0] != '/',
{
    reveal_strlit("container");
    reveal_strlit("host");
    reveal_strlit("netdev");
    reveal_strlit("overlay");
    reveal_strlit("wireguard");
    let kt = kind_text(k);
    assert forall|i: int| 0 <= i < kt.len() implies kt[i] != '/' by {
        match k {
            EndpointKind::Container => {
                assert("container"@ =~= seq!['c', 'o', 'n', 't', 'a', 'i', 'n', 'e', 'r']);
            },
            EndpointKind::Host => {
                assert("host"@ =~= seq!['h', 'o', 's', 't']);
            },
            EndpointKind::NetDev => {
                assert("netdev"@ =~= seq!['n', 'e', 't', 'd', 'e', 'v']);
            },
            EndpointKind::Overlay => {
                assert("overlay"@ =~= seq!['o', 'v', 'e', 'r', 'l', 'a', 'y']);
            },
            EndpointKind::Wireguard => {
                assert("wireguard"@ =~= seq!['w', 'i', 'r', 'e', 'g', 'u', 'a', 'r', 'd']);
            },
        }
    }
    assert(kt != seq!['.']);
}

/// Every `<kind>/<link>` path reads back as its kind and link, for any link
/// that is a plain file name.
pub proof fn law_pin_subpath_round_trip(kind: EndpointKind, link: Seq<char>)
    requires
        is_name(link),
    ensures
        parse_pin_subpath_spec(pin_subpath_spec(kind, link)) == Some((kind, link)),
{
    let kt = kind_text(kind);
    lemma_kind_text_plain(kind);
    let p = pin_subpath_spec(kind, link);
    assert(p == kt + seq!['/'] + link);
    let m = kt.len() as int;
    assert(p[m] == '/');
    lemma_slash_from_segment(p, 0, m);
    assert(p.subrange(0, m) =~= kt);
    law_kind_text_round_trip(kind);
    lemma_slash_from_segment(p, m + 1, p.len() as int);
    assert(p.subrange(m + 1, p.len() as int) =~= link);
    assert(next_normal(p, m + 1) == Some(link));
    assert(next_normal(p, m) == Some(link));
}

/// What comes before the first `/` of `<name>/<rest>`.
proof fn lemma_first_segment(name: Seq<char>, rest: Seq<char>)
    requires
        no_slash(name),
    ensures
        slash_from(name + seq!['/'] + rest, 0) == name.len(),
        (name + seq!['/'] + rest).subrange(0, name.len() as int) == name,
{
    let p = name + seq!['/'] + rest;
    lemma_slash_from_segment(p, 0, name.len() as int);
    assert(p.subrange(0, name.len() as int) =~= name);
}

proof fn lemma_join_relative(base: Seq<char>, a: Seq<char>, b: Seq<char>)
    requires
        !(a.len() > 0 && a[0] == '/'),
        !(b.len() > 0 && b[0] == '/'),
        join(base, a) == join(base, b),
    ensures
        a == b,
{
    if base.len() == 0 {
    } else if base.last() == '/' {
        assert(a =~= (base + a).subrange(base.len() as int, (base + a).len() as int));
        assert(b =~= (base + b).subrange(base.len() as int, (base + b).len() as int));
    } else {
        let s = base + seq!['/'];
        assert(a =~= (s + a).subrange(s.len() as int, (s + a).len() as int));
        assert(b =~= (s + b).subrange(s.len() as int, (s + b).len() as int));
    }
}

/// Two endpoints never share a link directory: neither the same link name
/// under two kinds nor two link names under one kind collide.
pub proof fn law_endpoint_link_dirs_distinct(
    root: PinRoot,
    k1: EndpointKind,
    l1: Seq<char>,
    k2: EndpointKind,
    l2: Seq<char>,
)
    requires
        k1 != k2 || l1 != l2,
        !(l1.len() > 0 && l1[0] == '/'),
        !(l2.len() > 0 && l2[0] == '/'),
    ensures
        root.endpoint_link_dir_spec(k1, l1) != root.endpoint_link_dir_spec(k2, l2),
{
    lemma_kind_text_plain(k1);
    lemma_kind_text_plain(k2);
    let x1 = pin_subpath_spec(k1, l1);
    let x2 = pin_subpath_spec(k2, l2);
    assert(x1 == kind_text(k1) + seq!['/'] + l1);
    assert(x2 == kind_text(k2) + seq!['/'] + l2);
    if root.endpoint_link_dir_spec(k1, l1) == root.endpoint_link_dir_spec(k2, l2) {
        assert(x1[0] == kind_text(k1)[0]);
        assert(x2[0] == kind_text(k2)[0]);
        lemma_join_relative(root.links_dir_spec(), x1, x2);
        lemma_first_segment(kind_text(k1), l1);
        lemma_first_segment(kind_text(k2), l2);
        assert(kind_text(k1) == kind_text(k2));
        law_kind_text_round_trip(k1);
        law_kind_text_round_trip(k2);
        assert(k1 == k2);
        let m = kind_text(k1).len() as int + 1;
        assert(l1 =~= x1.subrange(m, x1.len() as int));
        assert(l2 =~= x2.subrange(m, x2.len() as int));
    }
}

/// Two endpoints never share the pin of a per-endpoint map.
pub proof fn law_per_endpoint_map_dirs_distinct(
    root: PinRoot,
    map_name: Seq<char>,
    l1: Seq<char>,
    l2: Seq<char>,
)
    requires
        l1 != l2,
        !(map_name.len() > 0 && map_name[0] == '/'),
    ensures
        root.per_endpoint_map_dir_spec(map_name, l1) != root.per_endpoint_map_dir_spec(map_name, l2),
{
    let n1 = map_name + seq!['_'] + l1;
    let n2 = map_name + seq!['_'] + l2;
    if root.per_endpoint_map_dir_spec(map_name, l1) == root.per_endpoint_map_dir_spec(map_name, l2) {
        assert(n1[0] == if map_name.len() > 0 { map_name[0] } else { '_' });
        assert(n2[0] == if map_name.len() > 0 { map_name[0] } else { '_' });
        lemma_join_relative(root.globals_dir_spec(), n1, n2);
        let m = map_name.len() as int + 1;
        assert(l1 =~= n1.subrange(m, n1.len() as int));
        assert(l2 =~= n2.subrange(m, n2.len() as int));
    }
}

/// A global map's pin never coincides with any endpoint's instance of a map
/// of the same name.
pub proof fn law_global_and_per_endpoint_map_dirs_distinct(
    root: PinRoot,
    map_name: Seq<char>,
    link: Seq<char>,
)
    ensures
        root.global_map_dir_spec(map_name) != root.per_endpoint_map_dir_spec(map_name, link),
{
    let g = root.globals_dir_spec();
    let n = map_name + seq!['_'] + link;
    if map_name.len() > 0 && map_name[0] == '/' {
        assert(n[0] == '/');
        assert(join(g, map_name).len() < join(g, n).len());
    } else {
        assert(n.len() > 0 && n[0] != '/');
        assert(join(g, map_name).len() < join(g, n).len());
    }
}

} // verus!
