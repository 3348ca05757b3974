//! Small string helpers shared by the other modules.
use vstd::prelude::*;
use vstd::string::*;

verus! {

/// Appends one character to `s`.
///
/// Calls `String::push`; claims the text afterwards is the text before
/// followed by `c`.
#[verifier::external_body]
pub fn push_char(s: &mut String, c: char)
    ensures
        final(s)@ == old(s)@.push(c),
{
    s.push(c);
}

/// Character `i` of `s`.
pub fn char_at(s: &str, i: usize) -> (c: char)
    requires
        i < s@.len(),
    ensures
        c == s@[i as int],
{
    s.get_char(i)
}

/// Number of characters in `s`.
pub fn char_len(s: &str) -> (n: usize)
    ensures
        n == s@.len(),
{
    s.unicode_len()
}

/// Whether two strings hold the same characters.
pub fn str_eq(a: &str, b: &str) -> (r: bool)
    ensures
        r == (a@ == b@),
{
    let x = a.to_owned();
    let y = b.to_owned();
    x == y
}

/// An owned copy of `s`.
pub fn owned(s: &str) -> (r: String)
    ensures
        r@ == s@,
{
    s.to_owned()
}

/// `a` followed by `b`.
pub fn concat(a: &str, b: &str) -> (r: String)
    ensures
        r@ == a@ + b@,
{
    let mut r = a.to_owned();
    r.append(b);
    r
}

/// The characters `from..to` of `s`, as an owned string.
pub fn slice_chars(s: &str, from: usize, to: usize) -> (r: String)
    requires
        from <= to <= s@.len(),
    ensures
        r@ == s@.subrange(from as int, to as int),
{
    let mut r = String::new();
    let mut i = from;
    while i < to
        invariant
            from <= i <= to,
            to <= s@.len(),
            r@ == s@.subrange(from as int, i as int),
        decreases to - i,
    {
        let c = char_at(s, i);
        push_char(&mut r, c);
        proof {
            assert(s@.subrange(from as int, i + 1) =~= s@.subrange(from as int, i as int).push(c));
        }
        i = i + 1;
    }
    r
}

/// Index of the first occurrence of `needle` in `hay` at or after `from`,
/// if any.
pub open spec fn occurs_at(hay: Seq<char>, needle: Seq<char>, pos: int) -> bool {
    0 <= pos && pos + needle.len() <= hay.len() && hay.subrange(pos, pos + needle.len()) == needle
}

/// The leftmost position at which `needle` occurs in `hay`.
pub fn find(hay: &str, needle: &str) -> (r: Option<usize>)
    ensures
        r matches Some(p) ==> occurs_at(hay@, needle@, p as int) && forall|q: int|
            0 <= q < p ==> !#[trigger] occurs_at(hay@, needle@, q),
        r is None ==> forall|q: int| !#[trigger] occurs_at(hay@, needle@, q),
{
    let h = char_len(hay);
    let n = char_len(needle);
    if n > h {
        return None;
    }
    let mut p: usize = 0;
    while p <= h - n
        invariant
            h == hay@.len(),
            n == needle@.len(),
            n <= h,
            p <= h - n + 1,
            forall|q: int| 0 <= q < p ==> !#[trigger] occurs_at(hay@, needle@, q),
        decreases h - n + 1 - p,
    {
        let mut k: usize = 0;
        let mut same = true;
        while k < n
            invariant
                h == hay@.len(),
                n == needle@.len(),
                p + n <= h,
                k <= n,
                same == forall|j: int| 0 <= j < k ==> hay@[p + j] == needle@[j],
            decreases n - k,
        {
            if char_at(hay, p + k) != char_at(needle, k) {
                same = false;
            }
            k = k + 1;
        }
        if same {
            proof {
                assert(hay@.subrange(p as int, p + n) =~= needle@);
            }
            return Some(p);
        }
        proof {
            if occurs_at(hay@, needle@, p as int) {
                assert forall|j: int| 0 <= j < n implies hay@[p + j] == needle@[j] by {
                    assert(hay@.subrange(p as int, p + n)[j] == hay@[p + j]);
                }
            }
        }
        p = p + 1;
    }
    None
}

} // verus!
