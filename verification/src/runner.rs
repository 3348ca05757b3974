//! The decisions of the in-kernel test runner: which programs of a test
//! object make up each test, and what the result buffer of a finished
//! test says.
use vstd::prelude::*;

use crate::ipam::opt_view;
use crate::text::{char_at, char_len, owned, str_eq};
use crate::tlv::{ParseError, TestResult, TestStatus, parse_test, parse_test_spec};

verus! {

/// Whether `a` comes before `b` in the order of strings: character codes
/// compared one by one, a proper prefix first.
pub open spec fn lex_less(a: Seq<char>, b: Seq<char>) -> bool
    decreases a.len(),
{
    if b.len() == 0 {
        false
    } else if a.len() == 0 {
        true
    } else if (a[0] as int) < (b[0] as int) {
        true
    } else if a[0] != b[0] {
        false
    } else {
        lex_less(a.drop_first(), b.drop_first())
    }
}

proof fn lemma_lex_irreflexive(a: Seq<char>)
    ensures
        !lex_less(a, a),
    decreases a.len(),
{
    if a.len() > 0 {
        lemma_lex_irreflexive(a.drop_first());
    }
}

proof fn lemma_lex_asymmetric(a: Seq<char>, b: Seq<char>)
    ensures
        lex_less(a, b) ==> !lex_less(b, a),
    decreases a.len(),
{
    if a.len() > 0 && b.len() > 0 {
        lemma_lex_asymmetric(a.drop_first(), b.drop_first());
    }
}

proof fn lemma_lex_transitive(a: Seq<char>, b: Seq<char>, c: Seq<char>)
    ensures
        lex_less(a, b) && lex_less(b, c) ==> lex_less(a, c),
    decreases a.len(),
{
    if a.len() > 0 && b.len() > 0 && c.len() > 0 {
        lemma_lex_transitive(a.drop_first(), b.drop_first(), c.drop_first());
    }
}

proof fn lemma_lex_total(a: Seq<char>, b: Seq<char>)
    ensures
        a != b ==> lex_less(a, b) || lex_less(b, a),
    decreases a.len(),
{
    if a.len() > 0 && b.len() > 0 {
        lemma_lex_total(a.drop_first(), b.drop_first());
        if a[0] != b[0] {
            assert((a[0] as int) != (b[0] as int));
        }
        if a != b && a[0] == b[0] {
            assert(a.drop_first() != b.drop_first()) by {
                if a.drop_first() == b.drop_first() {
                    assert(a =~= seq![a[0]] + a.drop_first());
                    assert(b =~= seq![b[0]] + b.drop_first());
                }
            }
        }
    }
    if a.len() == 0 && b.len() == 0 {
        assert(a =~= b);
    }
}

/// The order of strings is a strict total order.
pub proof fn lemma_lex_order(a: Seq<char>, b: Seq<char>, c: Seq<char>)
    ensures
        !lex_less(a, a),
        lex_less(a, b) ==> !lex_less(b, a),
        lex_less(a, b) && lex_less(b, c) ==> lex_less(a, c),
        a != b ==> lex_less(a, b) || lex_less(b, a),
{
    lemma_lex_irreflexive(a);
    lemma_lex_asymmetric(a, b);
    lemma_lex_transitive(a, b, c);
    lemma_lex_total(a, b);
}

/// Whether `a` comes before `b` in the order of strings.
pub fn str_less(a: &str, b: &str) -> (r: bool)
    ensures
        r == lex_less(a@, b@),
{
    let n = char_len(a);
    let m = char_len(b);
    let mut i: usize = 0;
    proof {
        assert(a@.skip(0) =~= a@);
        assert(b@.skip(0) =~= b@);
    }
    while i < n && i < m
        invariant
            n == a@.len(),
            m == b@.len(),
            i <= n,
            i <= m,
            lex_less(a@, b@) == lex_less(a@.skip(i as int), b@.skip(i as int)),
        decreases n - i,
    {
        let x = char_at(a, i);
        let y = char_at(b, i);
        proof {
            assert(a@.skip(i as int)[0] == x);
            assert(b@.skip(i as int)[0] == y);
            assert(a@.skip(i as int).drop_first() =~= a@.skip(i + 1));
            assert(b@.skip(i as int).drop_first() =~= b@.skip(i + 1));
        }
        if (x as u32) < (y as u32) {
            return true;
        }
        if x != y {
            return false;
        }
        i = i + 1;
    }
    i < m
}

/// The role a program plays in a test.
#[derive(Clone, Copy, Debug, PartialEq, Eq, Structural)]
pub enum ProgramRole {
    Arrange,
    Act,
    Assert,
}

/// No character of `t` is a line break, and there is at least one.
pub open spec fn one_line(t: Seq<char>) -> bool {
    t.len() > 0 && forall|i: int| 0 <= i < t.len() ==> t[i] != '\n'
}

/// Whether `s` begins with `p`.
pub open spec fn has_prefix(s: Seq<char>, p: Seq<char>) -> bool {
    p.len() <= s.len() && s.subrange(0, p.len() as int) == p
}

/// What the pattern `^__test_fw_(?P<ptype>arrange|act|assert)_(?P<name>.+)$`
/// captures in a program name: the role word and the test name.
pub open spec fn fw_captures(name: Seq<char>) -> Option<(Seq<char>, Seq<char>)> {
    let pre = "__test_fw_"@;
    if has_prefix(name, pre) {
        let rest = name.skip(pre.len() as int);
        if has_prefix(rest, "arrange_"@) && one_line(rest.skip(8)) {
            Some(("arrange"@, rest.skip(8)))
        } else if has_prefix(rest, "act_"@) && one_line(rest.skip(4)) {
            Some(("act"@, rest.skip(4)))
        } else if has_prefix(rest, "assert_"@) && one_line(rest.skip(7)) {
            Some(("assert"@, rest.skip(7)))
        } else {
            None
        }
    } else {
        None
    }
}

/// The pattern test program names follow: a fixed prefix, the role word
/// and the test name.
pub const TEST_PROGRAM_PATTERN: &'static str = "^__test_fw_(?P<ptype>arrange|act|assert)_(?P<name>.+)$";

/// Matches a program name against a pattern with `regex`.
///
/// Compiles `pattern` with `regex::Regex::new` and returns the captures
/// named `ptype` and `name` of `Regex::captures`. For the test-program
/// pattern (which `Regex::new` accepts) the contract claims they are what
/// `fw_captures` states: `.` matches any character but a line break, and
/// `$` only the end of the text.
#[verifier::external_body]
fn test_program_captures(pattern: &str, name: &str) -> (r: Option<(String, String)>)
    requires
        pattern@ == TEST_PROGRAM_PATTERN@,
    ensures
        match r {
            None => fw_captures(name@) is None,
            Some((p, t)) => fw_captures(name@) == Some((p@, t@)),
        },
{
    let re = regex::Regex::new(pattern).ok()?;
    let caps = re.captures(name)?;
    Some((caps["ptype"].to_owned(), caps["name"].to_owned()))
}

/// The role a captured role word names.
pub open spec fn role_named(p: Seq<char>) -> Option<ProgramRole> {
    if p == "arrange"@ {
        Some(ProgramRole::Arrange)
    } else if p == "act"@ {
        Some(ProgramRole::Act)
    } else if p == "assert"@ {
        Some(ProgramRole::Assert)
    } else {
        None
    }
}

/// The role and the test of a test program, by its name.
pub open spec fn program_parts(name: Seq<char>) -> Option<(ProgramRole, Seq<char>)> {
    match fw_captures(name) {
        Some((p, t)) => match role_named(p) {
            Some(r) => Some((r, t)),
            None => None,
        },
        None => None,
    }
}

/// The role and the test of a test program, by its name.
pub fn program_parts_of(name: &str) -> (r: Option<(ProgramRole, String)>)
    ensures
        match r {
            None => program_parts(name@) is None,
            Some((role, t)) => program_parts(name@) == Some((role, t@)),
        },
{
    match test_program_captures(TEST_PROGRAM_PATTERN, name) {
        None => None,
        Some((p, t)) => {
            if str_eq(p.as_str(), "arrange") {
                Some((ProgramRole::Arrange, t))
            } else if str_eq(p.as_str(), "act") {
                Some((ProgramRole::Act, t))
            } else if str_eq(p.as_str(), "assert") {
                Some((ProgramRole::Assert, t))
            } else {
                None
            }
        },
    }
}

/// The programs of one test, by role.
#[derive(Debug, Clone)]
pub struct ProgramSet {
    pub arrange_name: Option<String>,
    pub act_name: Option<String>,
    pub assert_name: Option<String>,
}

/// Why the programs of a test object do not make a valid set of tests.
#[derive(Debug)]
pub enum GroupError {
    /// A test has a second program of the same role.
    Duplicate { role: ProgramRole, test: String },
    /// A test has no assert program.
    MissingCheck(String),
}

/// The program of role `r` in `s`.
pub open spec fn slot(s: ProgramSet, r: ProgramRole) -> Option<String> {
    match r {
        ProgramRole::Arrange => s.arrange_name,
        ProgramRole::Act => s.act_name,
        ProgramRole::Assert => s.assert_name,
    }
}

/// Program names, read as text.
pub open spec fn names_view(v: Seq<String>) -> Seq<Seq<char>> {
    v.map_values(|s: String| s@)
}

/// The test a program belongs to.
pub open spec fn test_of(name: Seq<char>) -> Option<Seq<char>> {
    match program_parts(name) {
        Some((_, t)) => Some(t),
        None => None,
    }
}

/// Some program of `ns` belongs to test `t`.
pub open spec fn is_test(ns: Seq<Seq<char>>, t: Seq<char>) -> bool {
    exists|i: int| 0 <= i < ns.len() && #[trigger] test_of(ns[i]) == Some(t)
}

/// Program `j` of `ns` has the role and test of an earlier program.
pub open spec fn dup_at(ns: Seq<Seq<char>>, j: int) -> bool {
    &&& 0 <= j < ns.len()
    &&& program_parts(ns[j]) is Some
    &&& exists|i: int| 0 <= i < j && #[trigger] program_parts(ns[i]) == program_parts(ns[j])
}

/// No test of `ns` has two programs of one role.
pub open spec fn no_dups(ns: Seq<Seq<char>>) -> bool {
    forall|j: int| 0 <= j < ns.len() ==> !#[trigger] dup_at(ns, j)
}

/// Program `j` is the first one that repeats a role of its test.
pub open spec fn first_dup(ns: Seq<Seq<char>>, j: int) -> bool {
    dup_at(ns, j) && forall|q: int| 0 <= q < j ==> !#[trigger] dup_at(ns, q)
}

/// The program of role `r` of test `t`, if `ns` has one.
pub open spec fn role_program(ns: Seq<Seq<char>>, r: ProgramRole, t: Seq<char>) -> Option<Seq<char>> {
    if exists|i: int| 0 <= i < ns.len() && #[trigger] program_parts(ns[i]) == Some((r, t)) {
        Some(ns[choose|i: int| 0 <= i < ns.len() && #[trigger] program_parts(ns[i]) == Some((r, t))])
    } else {
        None
    }
}

/// `g` holds the tests of `ns` in order of their names, each with its
/// programs by role.
pub open spec fn groups_of(ns: Seq<Seq<char>>, g: Seq<(String, ProgramSet)>) -> bool {
    &&& forall|a: int, b: int| 0 <= a < b < g.len() ==> lex_less(#[trigger] g[a].0@, #[trigger] g[b].0@)
    &&& forall|a: int| 0 <= a < g.len() ==> is_test(ns, #[trigger] g[a].0@)
    &&& forall|t: Seq<char>| #[trigger] is_test(ns, t) ==> exists|a: int| 0 <= a < g.len() && #[trigger] g[a].0@ == t
    &&& forall|a: int, r: ProgramRole| 0 <= a < g.len() ==> #[trigger] slot_matches(ns, g[a], r)
}

/// The program of role `r` in group `e` is the one `ns` has for it.
pub open spec fn slot_matches(ns: Seq<Seq<char>>, e: (String, ProgramSet), r: ProgramRole) -> bool {
    opt_view(slot(e.1, r)) == role_program(ns, r, e.0@)
}

/// With no repeated roles, a program with role `r` of test `t` is the one
/// `role_program` names.
proof fn lemma_role_program_unique(ns: Seq<Seq<char>>, i: int, r: ProgramRole, t: Seq<char>)
    requires
        no_dups(ns),
        0 <= i < ns.len(),
        program_parts(ns[i]) == Some((r, t)),
    ensures
        role_program(ns, r, t) == Some(ns[i]),
{
    let k = choose|k: int| 0 <= k < ns.len() && #[trigger] program_parts(ns[k]) == Some((r, t));
    if k < i {
        assert(dup_at(ns, i));
    } else if i < k {
        assert(dup_at(ns, k));
    }
}

/// Adding a program to `ns` changes only what its own role and test
/// select, and only if nothing was selected before.
proof fn lemma_role_program_push(ns: Seq<Seq<char>>, x: Seq<char>, r: ProgramRole, t: Seq<char>)
    requires
        no_dups(ns.push(x)),
    ensures
        program_parts(x) != Some((r, t)) ==> role_program(ns.push(x), r, t) == role_program(ns, r, t),
        program_parts(x) == Some((r, t)) ==> role_program(ns.push(x), r, t) == Some(x) && role_program(ns, r, t) is None,
{
    let n = ns.push(x);
    assert forall|q: int| 0 <= q < ns.len() implies !#[trigger] dup_at(ns, q) by {
        assert(!dup_at(n, q));
        if dup_at(ns, q) {
            let w = choose|i: int| 0 <= i < q && #[trigger] program_parts(ns[i]) == program_parts(ns[q]);
            assert(n[w] == ns[w]);
            assert(n[q] == ns[q]);
        }
    }
    if program_parts(x) == Some((r, t)) {
        lemma_role_program_unique(n, ns.len() as int, r, t);
        if exists|i: int| 0 <= i < ns.len() && #[trigger] program_parts(ns[i]) == Some((r, t)) {
            let w = choose|i: int| 0 <= i < ns.len() && #[trigger] program_parts(ns[i]) == Some((r, t));
            assert(n[w] == ns[w]);
            assert(dup_at(n, ns.len() as int));
        }
    } else {
        if exists|i: int| 0 <= i < ns.len() && #[trigger] program_parts(ns[i]) == Some((r, t)) {
            let w = choose|i: int| 0 <= i < ns.len() && #[trigger] program_parts(ns[i]) == Some((r, t));
            lemma_role_program_unique(ns, w, r, t);
            assert(n[w] == ns[w]);
            lemma_role_program_unique(n, w, r, t);
        } else {
            assert forall|i: int| 0 <= i < n.len() implies #[trigger] program_parts(n[i]) != Some((r, t)) by {
                if i < ns.len() {
                    assert(n[i] == ns[i]);
                }
            }
        }
    }
}

/// The program of role `r` in `s`.
fn slot_of(s: &ProgramSet, r: ProgramRole) -> (o: &Option<String>)
    ensures
        *o == slot(*s, r),
{
    match r {
        ProgramRole::Arrange => &s.arrange_name,
        ProgramRole::Act => &s.act_name,
        ProgramRole::Assert => &s.assert_name,
    }
}

/// A copy of an optional string.
fn copy_opt(o: &Option<String>) -> (r: Option<String>)
    ensures
        opt_view(r) == opt_view(*o),
{
    match o {
        Some(s) => Some(owned(s.as_str())),
        None => None,
    }
}

/// `s` with role `r` given to program `name`.
fn with_slot(s: &ProgramSet, r: ProgramRole, name: &str) -> (n: ProgramSet)
    ensures
        forall|q: ProgramRole| opt_view(#[trigger] slot(n, q)) == if q == r {
            Some(name@)
        } else {
            opt_view(slot(*s, q))
        },
{
    let a = copy_opt(&s.arrange_name);
    let b = copy_opt(&s.act_name);
    let c = copy_opt(&s.assert_name);
    match r {
        ProgramRole::Arrange => ProgramSet { arrange_name: Some(owned(name)), act_name: b, assert_name: c },
        ProgramRole::Act => ProgramSet { arrange_name: a, act_name: Some(owned(name)), assert_name: c },
        ProgramRole::Assert => ProgramSet { arrange_name: a, act_name: b, assert_name: Some(owned(name)) },
    }
}

/// Whether program `q` repeats a role does not depend on later programs.
proof fn lemma_dup_prefix(ns: Seq<Seq<char>>, j: int, q: int)
    requires
        0 <= q < j <= ns.len(),
    ensures
        dup_at(ns.take(j), q) == dup_at(ns, q),
{
    let p = ns.take(j);
    assert(p[q] == ns[q]);
    if dup_at(ns, q) {
        let w = choose|i: int| 0 <= i < q && #[trigger] program_parts(ns[i]) == program_parts(ns[q]);
        assert(p[w] == ns[w]);
    }
    if dup_at(p, q) {
        let w = choose|i: int| 0 <= i < q && #[trigger] program_parts(p[i]) == program_parts(p[q]);
        assert(p[w] == ns[w]);
    }
}

/// Adding a program keeps `ns` free of repeated roles when nothing of
/// `ns` has its role and test.
proof fn lemma_no_dups_push(ns: Seq<Seq<char>>, x: Seq<char>)
    requires
        no_dups(ns),
        program_parts(x) matches Some((r, t)) ==> role_program(ns, r, t) is None,
    ensures
        no_dups(ns.push(x)),
{
    let n = ns.push(x);
    assert forall|j: int| 0 <= j < n.len() implies !#[trigger] dup_at(n, j) by {
        if j < ns.len() {
            lemma_dup_prefix(n, ns.len() as int, j);
            assert(n.take(ns.len() as int) =~= ns);
            assert(!dup_at(ns, j));
        } else if dup_at(n, j) {
            let w = choose|i: int| 0 <= i < j && #[trigger] program_parts(n[i]) == program_parts(n[j]);
            assert(n[w] == ns[w]);
            let (r, t) = program_parts(x).unwrap();
            assert(program_parts(ns[w]) == Some((r, t)));
        }
    }
}

/// Tests of `ns` with one program more.
proof fn lemma_is_test_push(ns: Seq<Seq<char>>, x: Seq<char>, t: Seq<char>)
    ensures
        is_test(ns.push(x), t) == (is_test(ns, t) || test_of(x) == Some(t)),
{
    let n = ns.push(x);
    if is_test(ns, t) {
        let w = choose|i: int| 0 <= i < ns.len() && #[trigger] test_of(ns[i]) == Some(t);
        assert(n[w] == ns[w]);
    }
    if test_of(x) == Some(t) {
        assert(n[ns.len() as int] == x);
    }
    if is_test(n, t) {
        let w = choose|i: int| 0 <= i < n.len() && #[trigger] test_of(n[i]) == Some(t);
        if w < ns.len() {
            assert(n[w] == ns[w]);
        }
    }
}

/// Without a program of test `t`, no role of `t` has a program.
proof fn lemma_no_test_no_program(ns: Seq<Seq<char>>, r: ProgramRole, t: Seq<char>)
    requires
        !is_test(ns, t),
    ensures
        role_program(ns, r, t) is None,
{
    if exists|i: int| 0 <= i < ns.len() && #[trigger] program_parts(ns[i]) == Some((r, t)) {
        let w = choose|i: int| 0 <= i < ns.len() && #[trigger] program_parts(ns[i]) == Some((r, t));
        assert(test_of(ns[w]) == Some(t));
    }
}

/// A program that is no test program leaves the grouping as it is.
proof fn lemma_groups_push_other(ns: Seq<Seq<char>>, x: Seq<char>, g: Seq<(String, ProgramSet)>)
    requires
        no_dups(ns),
        groups_of(ns, g),
        program_parts(x) is None,
    ensures
        no_dups(ns.push(x)),
        groups_of(ns.push(x), g),
{
    lemma_no_dups_push(ns, x);
    let n = ns.push(x);
    assert forall|a: int| 0 <= a < g.len() implies is_test(n, #[trigger] g[a].0@) by {
        lemma_is_test_push(ns, x, g[a].0@);
    }
    assert forall|t: Seq<char>| #[trigger] is_test(n, t) implies exists|a: int|
        0 <= a < g.len() && #[trigger] g[a].0@ == t by {
        lemma_is_test_push(ns, x, t);
    }
    assert forall|a: int, r: ProgramRole| 0 <= a < g.len() implies #[trigger] slot_matches(n, g[a], r) by {
        lemma_role_program_push(ns, x, r, g[a].0@);
        assert(slot_matches(ns, g[a], r));
    }
}

/// Giving program `x` its role in the existing group of its test.
proof fn lemma_groups_push_existing(
    ns: Seq<Seq<char>>,
    x: Seq<char>,
    g: Seq<(String, ProgramSet)>,
    g2: Seq<(String, ProgramSet)>,
    a: int,
    role: ProgramRole,
    t: Seq<char>,
)
    requires
        no_dups(ns),
        groups_of(ns, g),
        program_parts(x) == Some((role, t)),
        0 <= a < g.len(),
        g[a].0@ == t,
        slot(g[a].1, role) is None,
        g2.len() == g.len(),
        forall|b: int| 0 <= b < g.len() && b != a ==> g2[b] == g[b],
        g2[a].0@ == t,
        forall|q: ProgramRole|
            opt_view(#[trigger] slot(g2[a].1, q)) == if q == role {
                Some(x)
            } else {
                opt_view(slot(g[a].1, q))
            },
    ensures
        no_dups(ns.push(x)),
        groups_of(ns.push(x), g2),
{
    assert(slot_matches(ns, g[a], role));
    lemma_no_dups_push(ns, x);
    let n = ns.push(x);
    assert forall|b: int, c: int| 0 <= b < c < g2.len() implies lex_less(
        #[trigger] g2[b].0@,
        #[trigger] g2[c].0@,
    ) by {
        assert(lex_less(g[b].0@, g[c].0@));
    }
    assert forall|b: int| 0 <= b < g2.len() implies is_test(n, #[trigger] g2[b].0@) by {
        assert(is_test(ns, g[b].0@));
        lemma_is_test_push(ns, x, g2[b].0@);
    }
    assert forall|t2: Seq<char>| #[trigger] is_test(n, t2) implies exists|b: int|
        0 <= b < g2.len() && #[trigger] g2[b].0@ == t2 by {
        lemma_is_test_push(ns, x, t2);
        if is_test(ns, t2) {
            let b = choose|b: int| 0 <= b < g.len() && #[trigger] g[b].0@ == t2;
            if b != a {
                assert(g2[b] == g[b]);
            }
        } else {
            assert(g2[a].0@ == t2);
        }
    }
    assert forall|b: int, q: ProgramRole| 0 <= b < g2.len() implies #[trigger] slot_matches(n, g2[b], q) by {
        lemma_role_program_push(ns, x, q, g2[b].0@);
        if b != a {
            assert(g2[b] == g[b]);
            lemma_lex_order(t, t, t);
            if b < a {
                assert(lex_less(g[b].0@, g[a].0@));
            } else {
                assert(lex_less(g[a].0@, g[b].0@));
            }
            assert(g[b].0@ != t);
            assert(slot_matches(ns, g[b], q));
        } else {
            assert(slot_matches(ns, g[a], q));
            if q == role {
                assert(role_program(n, q, t) == Some(x));
            } else {
                assert(role_program(n, q, t) == role_program(ns, q, t));
            }
            assert(opt_view(slot(g2[a].1, q)) == if q == role {
                Some(x)
            } else {
                opt_view(slot(g[a].1, q))
            });
        }
    }
}

/// Opening a new group for the test of program `x` at its place in the
/// order of names.
proof fn lemma_groups_push_new(
    ns: Seq<Seq<char>>,
    x: Seq<char>,
    g: Seq<(String, ProgramSet)>,
    a: int,
    e: (String, ProgramSet),
    role: ProgramRole,
)
    requires
        no_dups(ns),
        groups_of(ns, g),
        program_parts(x) == Some((role, e.0@)),
        0 <= a <= g.len(),
        forall|b: int| 0 <= b < a ==> lex_less(#[trigger] g[b].0@, e.0@),
        a < g.len() ==> lex_less(e.0@, g[a].0@),
        forall|q: ProgramRole|
            opt_view(#[trigger] slot(e.1, q)) == if q == role {
                Some(x)
            } else {
                None
            },
    ensures
        no_dups(ns.push(x)),
        groups_of(ns.push(x), g.insert(a, e)),
{
    let t = e.0@;
    let g2 = g.insert(a, e);
    let n = ns.push(x);
    assert forall|b: int, c: int| 0 <= b < c < g2.len() implies lex_less(
        #[trigger] g2[b].0@,
        #[trigger] g2[c].0@,
    ) by {
        if c < a {
            assert(lex_less(g[b].0@, g[c].0@));
        } else if c == a {
        } else if b < a {
            assert(lex_less(g[b].0@, t));
            lemma_lex_order(g[b].0@, t, g[a].0@);
            if c - 1 > a {
                assert(lex_less(g[a].0@, g[c - 1].0@));
                lemma_lex_order(g[b].0@, g[a].0@, g[c - 1].0@);
            }
        } else if b == a {
            if c - 1 > a {
                assert(lex_less(g[a].0@, g[c - 1].0@));
                lemma_lex_order(t, g[a].0@, g[c - 1].0@);
            }
        } else {
            assert(lex_less(g[b - 1].0@, g[c - 1].0@));
        }
    }
    assert(!is_test(ns, t)) by {
        if is_test(ns, t) {
            let b = choose|b: int| 0 <= b < g.len() && #[trigger] g[b].0@ == t;
            if b < a {
                lemma_lex_order(t, t, t);
            } else {
                if b > a {
                    assert(lex_less(g[a].0@, g[b].0@));
                    lemma_lex_order(t, g[a].0@, t);
                }
                lemma_lex_order(t, t, t);
            }
        }
    }
    lemma_no_test_no_program(ns, role, t);
    lemma_no_dups_push(ns, x);
    assert forall|b: int| 0 <= b < g2.len() implies is_test(n, #[trigger] g2[b].0@) by {
        if b < a {
            assert(is_test(ns, g[b].0@));
        } else if b > a {
            assert(is_test(ns, g[b - 1].0@));
        }
        lemma_is_test_push(ns, x, g2[b].0@);
    }
    assert forall|t2: Seq<char>| #[trigger] is_test(n, t2) implies exists|b: int|
        0 <= b < g2.len() && #[trigger] g2[b].0@ == t2 by {
        lemma_is_test_push(ns, x, t2);
        if is_test(ns, t2) {
            let b = choose|b: int| 0 <= b < g.len() && #[trigger] g[b].0@ == t2;
            if b < a {
                assert(g2[b] == g[b]);
            } else {
                assert(g2[b + 1] == g[b]);
            }
        } else {
            assert(g2[a].0@ == t2);
        }
    }
    assert forall|b: int, q: ProgramRole| 0 <= b < g2.len() implies #[trigger] slot_matches(n, g2[b], q) by {
        lemma_new_group_slot(ns, x, g, a, e, role, b, q);
    }
}

/// One slot of the grouping after a new group is opened.
proof fn lemma_new_group_slot(
    ns: Seq<Seq<char>>,
    x: Seq<char>,
    g: Seq<(String, ProgramSet)>,
    a: int,
    e: (String, ProgramSet),
    role: ProgramRole,
    b: int,
    q: ProgramRole,
)
    requires
        no_dups(ns),
        no_dups(ns.push(x)),
        groups_of(ns, g),
        !is_test(ns, e.0@),
        program_parts(x) == Some((role, e.0@)),
        0 <= a <= g.len(),
        0 <= b <= g.len(),
        forall|q2: ProgramRole|
            opt_view(#[trigger] slot(e.1, q2)) == if q2 == role {
                Some(x)
            } else {
                None
            },
    ensures
        slot_matches(ns.push(x), g.insert(a, e)[b], q),
{
    let g2 = g.insert(a, e);
    let t = e.0@;
    lemma_role_program_push(ns, x, q, g2[b].0@);
    if b < a {
        assert(g2[b] == g[b]);
        assert(is_test(ns, g[b].0@));
        assert(slot_matches(ns, g[b], q));
    } else if b > a {
        assert(g2[b] == g[b - 1]);
        assert(is_test(ns, g[b - 1].0@));
        assert(slot_matches(ns, g[b - 1], q));
    } else {
        assert(g2[a] == e);
        lemma_no_test_no_program(ns, q, t);
        assert(opt_view(slot(e.1, q)) == if q == role {
            Some(x)
        } else {
            None
        });
    }
}

/// A program whose role its test already has is the first repeat.
proof fn lemma_dup_found(ns: Seq<Seq<char>>, j: int, g: Seq<(String, ProgramSet)>, a: int, role: ProgramRole)
    requires
        0 <= j < ns.len(),
        no_dups(ns.take(j)),
        groups_of(ns.take(j), g),
        0 <= a < g.len(),
        program_parts(ns[j]) == Some((role, g[a].0@)),
        slot(g[a].1, role) is Some,
    ensures
        first_dup(ns, j),
{
    let p = ns.take(j);
    assert(slot_matches(p, g[a], role));
    let w = choose|i: int| 0 <= i < p.len() && #[trigger] program_parts(p[i]) == Some((role, g[a].0@));
    assert(p[w] == ns[w]);
    assert(dup_at(ns, j));
    assert forall|q: int| 0 <= q < j implies !#[trigger] dup_at(ns, q) by {
        lemma_dup_prefix(ns, j, q);
        assert(!dup_at(p, q));
    }
}

/// The index of the group named `t` in `g`, or where it would go.
fn group_position(g: &Vec<(String, ProgramSet)>, t: &str) -> (a: usize)
    requires
        forall|b: int, c: int| 0 <= b < c < g@.len() ==> lex_less(#[trigger] g@[b].0@, #[trigger] g@[c].0@),
    ensures
        a <= g@.len(),
        forall|b: int| 0 <= b < a ==> lex_less(#[trigger] g@[b].0@, t@),
        a < g@.len() ==> !lex_less(g@[a as int].0@, t@),
{
    let mut a: usize = 0;
    while a < g.len()
        invariant
            a <= g@.len(),
            forall|b: int| 0 <= b < a ==> lex_less(#[trigger] g@[b].0@, t@),
        decreases g.len() - a,
    {
        if !str_less(g[a].0.as_str(), t) {
            return a;
        }
        a = a + 1;
    }
    a
}

/// Groups the programs of a test object by test: each program named
/// `__test_fw_<role>_<test>` (role `arrange`, `act` or `assert`) joins the
/// group of its test; others are ignored. Groups come in the order of
/// test names. A second program of one role for one test is reported as
/// the first such program in `names`; a test without an assert program is
/// reported as the first such test in name order.
pub fn group_test_programs(names: &Vec<String>) -> (r: Result<Vec<(String, ProgramSet)>, GroupError>)
    ensures
        match r {
            Ok(g) => {
                &&& no_dups(names_view(names@))
                &&& groups_of(names_view(names@), g@)
                &&& forall|a: int| 0 <= a < g@.len() ==> (#[trigger] g@[a]).1.assert_name is Some
            },
            Err(GroupError::Duplicate { role, test }) => exists|j: int|
                #[trigger] first_dup(names_view(names@), j) && program_parts(names_view(names@)[j]) == Some(
                    (role, test@),
                ),
            Err(GroupError::MissingCheck(t)) => {
                &&& no_dups(names_view(names@))
                &&& is_test(names_view(names@), t@)
                &&& role_program(names_view(names@), ProgramRole::Assert, t@) is None
                &&& forall|t2: Seq<char>|
                    #[trigger] is_test(names_view(names@), t2) && lex_less(t2, t@) ==> role_program(
                        names_view(names@),
                        ProgramRole::Assert,
                        t2,
                    ) is Some
            },
        },
{
    let ghost ns = names_view(names@);
    let mut g: Vec<(String, ProgramSet)> = Vec::new();
    let mut j: usize = 0;
    proof {
        assert(ns.take(0).len() == 0);
        assert(no_dups(ns.take(0)));
        assert(groups_of(ns.take(0), g@));
    }
    while j < names.len()
        invariant
            j <= names@.len(),
            ns == names_view(names@),
            no_dups(ns.take(j as int)),
            groups_of(ns.take(j as int), g@),
        decreases names.len() - j,
    {
        proof {
            assert(ns.take(j + 1) =~= ns.take(j as int).push(ns[j as int]));
            assert(ns[j as int] == names@[j as int]@);
        }
        match program_parts_of(names[j].as_str()) {
            None => {
                proof {
                    lemma_groups_push_other(ns.take(j as int), ns[j as int], g@);
                }
            },
            Some((role, t)) => {
                let a = group_position(&g, t.as_str());
                if a < g.len() && str_eq(g[a].0.as_str(), t.as_str()) {
                    if slot_of(&g[a].1, role).is_some() {
                        proof {
                            lemma_dup_found(ns, j as int, g@, a as int, role);
                        }
                        return Err(GroupError::Duplicate { role, test: t });
                    }
                    let set = with_slot(&g[a].1, role, names[j].as_str());
                    let ghost before = g@;
                    g.set(a, (t, set));
                    proof {
                        lemma_groups_push_existing(
                            ns.take(j as int),
                            ns[j as int],
                            before,
                            g@,
                            a as int,
                            role,
                            t@,
                        );
                    }
                } else {
                    let empty = ProgramSet { arrange_name: None, act_name: None, assert_name: None };
                    let set = with_slot(&empty, role, names[j].as_str());
                    let ghost before = g@;
                    let ghost e = (t, set);
                    proof {
                        if a < before.len() {
                            lemma_lex_order(before[a as int].0@, t@, t@);
                        }
                    }
                    g.insert(a, (t, set));
                    proof {
                        lemma_groups_push_new(ns.take(j as int), ns[j as int], before, a as int, e, role);
                    }
                }
            },
        }
        j = j + 1;
    }
    proof {
        assert(ns.take(j as int) =~= ns);
    }
    let mut a: usize = 0;
    while a < g.len()
        invariant
            a <= g@.len(),
            ns == names_view(names@),
            no_dups(ns),
            groups_of(ns, g@),
            forall|b: int| 0 <= b < a ==> (#[trigger] g@[b]).1.assert_name is Some,
        decreases g.len() - a,
    {
        if g[a].1.assert_name.is_none() {
            let t = owned(g[a].0.as_str());
            proof {
                assert(slot_matches(ns, g@[a as int], ProgramRole::Assert));
                assert forall|t2: Seq<char>|
                    #[trigger] is_test(ns, t2) && lex_less(t2, t@) implies role_program(
                        ns,
                        ProgramRole::Assert,
                        t2,
                    ) is Some by {
                    let b = choose|b: int| 0 <= b < g@.len() && #[trigger] g@[b].0@ == t2;
                    lemma_lex_order(t2, t@, t2);
                    if b >= a {
                        if b > a {
                            assert(lex_less(g@[a as int].0@, g@[b].0@));
                        }
                    }
                    assert(slot_matches(ns, g@[b], ProgramRole::Assert));
                }
            }
            return Err(GroupError::MissingCheck(t));
        }
        a = a + 1;
    }
    Ok(g)
}

/// The status code a test program returns for each outcome.
pub open spec fn status_code(s: TestStatus) -> u32 {
    match s {
        TestStatus::Pass => 0,
        TestStatus::Fail => 1,
        TestStatus::Skip => 2,
        TestStatus::FrameworkError => 3,
    }
}

/// Whether a program's return code reports a failed test or a framework
/// error.
pub fn test_error(ret: u32) -> (r: bool)
    ensures
        r == (ret == status_code(TestStatus::Fail) || ret == status_code(TestStatus::FrameworkError)),
{
    ret == 1 || ret == 3
}

/// Why a test of the in-kernel suite could not be run or read.
#[derive(Debug)]
pub enum TestRunnerError {
    ProgramNotFound(String),
    MapNotFound(String),
    /// The named test has no assert program.
    MissingCheck(String),
    /// The result buffer holds nothing.
    NoResult,
    ParseError(ParseError),
}

/// How many bytes of a zero-padded result buffer were written: everything
/// up to the last non-zero byte.
pub open spec fn written_len(raw: Seq<u8>) -> nat
    decreases raw.len(),
{
    if raw.len() == 0 {
        0
    } else if raw.last() != 0 {
        raw.len()
    } else {
        written_len(raw.drop_last())
    }
}

/// The written part of a buffer ends in a non-zero byte and only zeros
/// follow it.
pub proof fn lemma_written_len(raw: Seq<u8>)
    ensures
        written_len(raw) <= raw.len(),
        written_len(raw) > 0 ==> raw[written_len(raw) - 1] != 0,
        forall|i: int| written_len(raw) <= i < raw.len() ==> raw[i] == 0,
    decreases raw.len(),
{
    if raw.len() > 0 && raw.last() == 0 {
        let d = raw.drop_last();
        lemma_written_len(d);
        assert forall|i: int| written_len(raw) <= i < raw.len() implies raw[i] == 0 by {
            if i < raw.len() - 1 {
                assert(raw[i] == d[i]);
            }
        }
    }
}

/// The written part of a zero-padded result buffer.
pub fn trim_trailing_zeros(raw: &[u8]) -> (r: Vec<u8>)
    ensures
        r@ == raw@.take(written_len(raw@) as int),
{
    let mut n = raw.len();
    proof {
        assert(raw@.take(n as int) =~= raw@);
    }
    while n > 0 && raw[n - 1] == 0
        invariant
            n <= raw@.len(),
            written_len(raw@) == written_len(raw@.take(n as int)),
        decreases n,
    {
        proof {
            assert(raw@.take(n as int).drop_last() =~= raw@.take(n - 1));
        }
        n = n - 1;
    }
    proof {
        if n > 0 {
            assert(raw@.take(n as int).last() == raw@[n - 1]);
        }
    }
    let mut r: Vec<u8> = Vec::new();
    let mut i: usize = 0;
    while i < n
        invariant
            i <= n <= raw@.len(),
            r@ == raw@.take(i as int),
        decreases n - i,
    {
        r.push(raw[i]);
        proof {
            assert(raw@.take(i + 1) =~= raw@.take(i as int).push(raw@[i as int]));
        }
        i = i + 1;
    }
    r
}

/// Whether the written part of a result buffer starts with a version
/// record that has no value (the reader cannot report such a version).
pub open spec fn empty_version_record(raw: Seq<u8>) -> bool {
    written_len(raw) >= 2 && raw[0] == 0 && raw[1] == 0
}

/// Reads the result a test wrote into its zero-padded buffer: nothing
/// written is `NoResult`, else the written part is parsed (see
/// `parse_test`).
pub fn read_test_result(raw: &[u8]) -> (r: Result<TestResult, TestRunnerError>)
    requires
        !empty_version_record(raw@),
    ensures
        written_len(raw@) == 0 ==> r matches Err(TestRunnerError::NoResult),
        written_len(raw@) > 0 ==> match parse_test_spec(raw@.take(written_len(raw@) as int)) {
            Err(e) => r matches Err(TestRunnerError::ParseError(e2)) && e2 == e,
            Ok(v) => r matches Ok(res) && res@ == v,
        },
{
    let written = trim_trailing_zeros(raw);
    proof {
        lemma_written_len(raw@);
    }
    if written.len() == 0 {
        return Err(TestRunnerError::NoResult);
    }
    match parse_test(written.as_slice()) {
        Ok(res) => Ok(res),
        Err(e) => Err(TestRunnerError::ParseError(e)),
    }
}

/// The steps of running one test of the suite, in order: clear the result
/// and assert maps, run the arrange program, run the act program, run the
/// assert program, read the result.
#[derive(Debug, Clone, Copy, PartialEq, Eq, Structural)]
pub enum SubTestStage {
    ClearMaps,
    Arrange,
    Act,
    Assert,
    ReadResult,
}

/// What running a test does after a step.
#[derive(Debug, Clone, Copy, PartialEq, Eq, Structural)]
pub enum SubTestAction {
    /// Run this step next.
    Run(SubTestStage),
    /// Store the act program's status code, then run the assert program.
    RecordStatusThenAssert(u32),
    /// The test has been run; its result is read.
    Done,
    /// The arrange program reported an error status.
    ArrangeFailed(u32),
    /// The act program reported an error status.
    ActFailed(u32),
    /// A step could not be carried out.
    Abort,
}

/// The step after the arrange step (or in its place): act when there is
/// an act program, else assert.
pub open spec fn after_arrange(has_act: bool) -> SubTestAction {
    if has_act {
        SubTestAction::Run(SubTestStage::Act)
    } else {
        SubTestAction::Run(SubTestStage::Assert)
    }
}

/// What follows step `stage`, given whether the test has arrange and act
/// programs, whether the step could be carried out, and the status code it
/// returned (for the arrange and act programs).
pub open spec fn sub_test_next_spec(
    stage: SubTestStage,
    has_arrange: bool,
    has_act: bool,
    ok: bool,
    status: u32,
) -> SubTestAction {
    if !ok {
        SubTestAction::Abort
    } else {
        let failed = status == status_code(TestStatus::Fail) || status == status_code(
            TestStatus::FrameworkError,
        );
        match stage {
            SubTestStage::ClearMaps => if has_arrange {
                SubTestAction::Run(SubTestStage::Arrange)
            } else {
                after_arrange(has_act)
            },
            SubTestStage::Arrange => if failed {
                SubTestAction::ArrangeFailed(status)
            } else {
                after_arrange(has_act)
            },
            SubTestStage::Act => if failed {
                SubTestAction::ActFailed(status)
            } else {
                SubTestAction::RecordStatusThenAssert(status)
            },
            SubTestStage::Assert => SubTestAction::Run(SubTestStage::ReadResult),
            SubTestStage::ReadResult => SubTestAction::Done,
        }
    }
}

/// The decision after step `stage` of running one test.
pub fn sub_test_next(
    stage: SubTestStage,
    has_arrange: bool,
    has_act: bool,
    ok: bool,
    status: u32,
) -> (r: SubTestAction)
    ensures
        r == sub_test_next_spec(stage, has_arrange, has_act, ok, status),
{
    if !ok {
        return SubTestAction::Abort;
    }
    let next_after_arrange = if has_act {
        SubTestAction::Run(SubTestStage::Act)
    } else {
        SubTestAction::Run(SubTestStage::Assert)
    };
    match stage {
        SubTestStage::ClearMaps => if has_arrange {
            SubTestAction::Run(SubTestStage::Arrange)
        } else {
            next_after_arrange
        },
        SubTestStage::Arrange => if test_error(status) {
            SubTestAction::ArrangeFailed(status)
        } else {
            next_after_arrange
        },
        SubTestStage::Act => if test_error(status) {
            SubTestAction::ActFailed(status)
        } else {
            SubTestAction::RecordStatusThenAssert(status)
        },
        SubTestStage::Assert => SubTestAction::Run(SubTestStage::ReadResult),
        SubTestStage::ReadResult => SubTestAction::Done,
    }
}

/// Whether a test whose result was read passed: every status but `Fail`
/// lets the run go on (a skipped test, or one that never reported a status,
/// does not fail the run).
pub fn test_passed(result: &TestResult) -> (r: bool)
    ensures
        r == (result.status != TestStatus::Fail),
{
    match result.status {
        TestStatus::Fail => false,
        _ => true,
    }
}

/// The status code a test program returns reads back, as a status byte of
/// its result record, as the same status.
pub proof fn law_status_code_round_trip(s: TestStatus)
    ensures
        status_code(s) < 256,
        crate::tlv::status_of(status_code(s) as u8) == s,
{
}

} // verus!
