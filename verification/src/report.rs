//! Rendering in-kernel test results: log lines with their printf-style
//! arguments filled in, and the lines of a test report.
use vstd::prelude::*;
use vstd::string::StringExecFns;

use crate::ip::{decimal, decimal_string};
use crate::shared::{hex_digit, push_hex_digit};
use crate::text::{char_at, char_len, push_char};
use crate::tlv::{LogEntry, TestResult, TestStatus};

verus! {

/// The conversion specifiers a log format may hold, as the kernel's
/// `bpf_trace_printk` knows them.
#[derive(Clone, Copy, Debug, PartialEq, Eq, Structural)]
pub enum Conversion {
    Llu,
    Lld,
    Lu,
    Ld,
    U,
    D,
    Llx,
    Lx,
    X,
    P,
}

/// The text of a specifier.
pub open spec fn conversion_text(c: Conversion) -> Seq<char> {
    match c {
        Conversion::Llu => seq!['%', 'l', 'l', 'u'],
        Conversion::Lld => seq!['%', 'l', 'l', 'd'],
        Conversion::Lu => seq!['%', 'l', 'u'],
        Conversion::Ld => seq!['%', 'l', 'd'],
        Conversion::U => seq!['%', 'u'],
        Conversion::D => seq!['%', 'd'],
        Conversion::Llx => seq!['%', 'l', 'l', 'x'],
        Conversion::Lx => seq!['%', 'l', 'x'],
        Conversion::X => seq!['%', 'x'],
        Conversion::P => seq!['%', 'p'],
    }
}

/// Whether `s` begins with `p`.
pub open spec fn starts_with(s: Seq<char>, p: Seq<char>) -> bool {
    p.len() <= s.len() && s.subrange(0, p.len() as int) == p
}

/// The specifier `s` begins with, if any.
pub open spec fn conversion_at(s: Seq<char>) -> Option<Conversion> {
    if starts_with(s, conversion_text(Conversion::Llu)) {
        Some(Conversion::Llu)
    } else if starts_with(s, conversion_text(Conversion::Lld)) {
        Some(Conversion::Lld)
    } else if starts_with(s, conversion_text(Conversion::Lu)) {
        Some(Conversion::Lu)
    } else if starts_with(s, conversion_text(Conversion::Ld)) {
        Some(Conversion::Ld)
    } else if starts_with(s, conversion_text(Conversion::U)) {
        Some(Conversion::U)
    } else if starts_with(s, conversion_text(Conversion::D)) {
        Some(Conversion::D)
    } else if starts_with(s, conversion_text(Conversion::Llx)) {
        Some(Conversion::Llx)
    } else if starts_with(s, conversion_text(Conversion::Lx)) {
        Some(Conversion::Lx)
    } else if starts_with(s, conversion_text(Conversion::X)) {
        Some(Conversion::X)
    } else if starts_with(s, conversion_text(Conversion::P)) {
        Some(Conversion::P)
    } else {
        None
    }
}

/// Lowercase hexadecimal digits of `n`, without leading zeros.
pub open spec fn hex_text(n: nat) -> Seq<char>
    decreases n,
{
    if n < 16 {
        seq![hex_digit(n)]
    } else {
        hex_text(n / 16).push(hex_digit(n % 16))
    }
}

/// The last `width` lowercase hexadecimal digits of `n`, zero-padded.
pub open spec fn hex_padded(n: nat, width: nat) -> Seq<char>
    decreases width,
{
    if width == 0 {
        seq![]
    } else {
        hex_padded(n / 16, (width - 1) as nat).push(hex_digit(n % 16))
    }
}

/// `v` read as a two's-complement 64-bit number, in decimal.
pub open spec fn signed_decimal(v: u64) -> Seq<char> {
    if v < 0x8000_0000_0000_0000 {
        decimal(v as nat)
    } else {
        seq!['-'] + decimal((0x1_0000_0000_0000_0000 - v) as nat)
    }
}

/// What an argument turns into in place of a specifier: `%p` as `0x` and
/// 16 hexadecimal digits, the other hexadecimal ones as `0x` and the
/// digits, the signed ones as signed decimal, the rest as decimal.
pub open spec fn rendered(c: Conversion, v: u64) -> Seq<char> {
    match c {
        Conversion::P => seq!['0', 'x'] + hex_padded(v as nat, 16),
        Conversion::Llx | Conversion::Lx | Conversion::X => seq!['0', 'x'] + hex_text(v as nat),
        Conversion::Lld | Conversion::Ld | Conversion::D => signed_decimal(v),
        _ => decimal(v as nat),
    }
}

/// `fmt` with its specifiers, left to right, replaced by the rendered
/// `args` in order; once the arguments run out the rest stays as it is.
pub open spec fn format_spec(fmt: Seq<char>, args: Seq<u64>) -> Seq<char>
    decreases fmt.len(),
{
    if args.len() == 0 || fmt.len() == 0 {
        fmt
    } else {
        match conversion_at(fmt) {
            Some(c) => rendered(c, args[0]) + format_spec(
                fmt.skip(conversion_text(c).len() as int),
                args.drop_first(),
            ),
            None => seq![fmt[0]] + format_spec(fmt.drop_first(), args),
        }
    }
}

/// Appends the hexadecimal digits of `n`.
fn push_hex(out: &mut String, n: u64)
    ensures
        final(out)@ == old(out)@ + hex_text(n as nat),
    decreases n,
{
    if n >= 16 {
        push_hex(out, n / 16);
    }
    push_hex_digit(out, (n % 16) as u8);
}

/// Appends the last `width` hexadecimal digits of `n`, zero-padded.
pub(crate) fn push_hex_padded(out: &mut String, n: u64, width: u32)
    ensures
        final(out)@ == old(out)@ + hex_padded(n as nat, width as nat),
    decreases width,
{
    if width > 0 {
        push_hex_padded(out, n / 16, width - 1);
        push_hex_digit(out, (n % 16) as u8);
    } else {
        proof {
            assert(old(out)@ + hex_padded(n as nat, 0) =~= old(out)@);
        }
    }
}

/// Appends `s`.
pub(crate) fn push_str(out: &mut String, s: &str)
    ensures
        final(out)@ == old(out)@ + s@,
{
    out.append(s);
}

/// Appends an argument rendered for specifier `c`.
fn push_rendered(out: &mut String, c: Conversion, v: u64)
    ensures
        final(out)@ == old(out)@ + rendered(c, v),
{
    match c {
        Conversion::P => {
            push_char(out, '0');
            push_char(out, 'x');
            push_hex_padded(out, v, 16);
            proof {
                assert(final(out)@ =~= old(out)@ + rendered(c, v));
            }
        },
        Conversion::Llx | Conversion::Lx | Conversion::X => {
            push_char(out, '0');
            push_char(out, 'x');
            push_hex(out, v);
            proof {
                assert(final(out)@ =~= old(out)@ + rendered(c, v));
            }
        },
        Conversion::Lld | Conversion::Ld | Conversion::D => {
            if v < 0x8000_0000_0000_0000 {
                let d = decimal_string(v as u128);
                push_str(out, d.as_str());
            } else {
                push_char(out, '-');
                let m: u128 = 0x1_0000_0000_0000_0000u128 - v as u128;
                let d = decimal_string(m);
                push_str(out, d.as_str());
                proof {
                    assert(final(out)@ =~= old(out)@ + rendered(c, v));
                }
            }
        },
        _ => {
            let d = decimal_string(v as u128);
            push_str(out, d.as_str());
        },
    }
}

/// Whether the characters of `s` from `i` on begin with `p`.
fn starts_at(s: &str, i: usize, p: &str) -> (r: bool)
    requires
        i <= s@.len(),
    ensures
        r == starts_with(s@.skip(i as int), p@),
{
    let n = char_len(s);
    let m = char_len(p);
    if m > n - i {
        return false;
    }
    let mut k: usize = 0;
    while k < m
        invariant
            i + m <= n,
            n == s@.len(),
            m == p@.len(),
            k <= m,
            forall|j: int| 0 <= j < k ==> s@[i + j] == p@[j],
        decreases m - k,
    {
        if char_at(s, i + k) != char_at(p, k) {
            proof {
                assert(s@.skip(i as int).subrange(0, m as int)[k as int] == s@[i + k]);
            }
            return false;
        }
        k = k + 1;
    }
    proof {
        assert(s@.skip(i as int).subrange(0, m as int) =~= p@);
    }
    true
}

/// The specifier that the characters of `s` from `i` on begin with.
fn conversion_at_exec(s: &str, i: usize) -> (r: Option<Conversion>)
    requires
        i <= s@.len(),
    ensures
        r == conversion_at(s@.skip(i as int)),
{
    proof {
        reveal_strlit("%llu");
        reveal_strlit("%lld");
        reveal_strlit("%lu");
        reveal_strlit("%ld");
        reveal_strlit("%u");
        reveal_strlit("%d");
        reveal_strlit("%llx");
        reveal_strlit("%lx");
        reveal_strlit("%x");
        reveal_strlit("%p");
        assert("%llu"@ =~= conversion_text(Conversion::Llu));
        assert("%lld"@ =~= conversion_text(Conversion::Lld));
        assert("%lu"@ =~= conversion_text(Conversion::Lu));
        assert("%ld"@ =~= conversion_text(Conversion::Ld));
        assert("%u"@ =~= conversion_text(Conversion::U));
        assert("%d"@ =~= conversion_text(Conversion::D));
        assert("%llx"@ =~= conversion_text(Conversion::Llx));
        assert("%lx"@ =~= conversion_text(Conversion::Lx));
        assert("%x"@ =~= conversion_text(Conversion::X));
        assert("%p"@ =~= conversion_text(Conversion::P));
    }
    if starts_at(s, i, "%llu") {
        Some(Conversion::Llu)
    } else if starts_at(s, i, "%lld") {
        Some(Conversion::Lld)
    } else if starts_at(s, i, "%lu") {
        Some(Conversion::Lu)
    } else if starts_at(s, i, "%ld") {
        Some(Conversion::Ld)
    } else if starts_at(s, i, "%u") {
        Some(Conversion::U)
    } else if starts_at(s, i, "%d") {
        Some(Conversion::D)
    } else if starts_at(s, i, "%llx") {
        Some(Conversion::Llx)
    } else if starts_at(s, i, "%lx") {
        Some(Conversion::Lx)
    } else if starts_at(s, i, "%x") {
        Some(Conversion::X)
    } else if starts_at(s, i, "%p") {
        Some(Conversion::P)
    } else {
        None
    }
}

/// The length of a specifier's text.
fn conversion_len(c: Conversion) -> (r: usize)
    ensures
        r == conversion_text(c).len(),
{
    match c {
        Conversion::Llu | Conversion::Lld | Conversion::Llx => 4,
        Conversion::Lu | Conversion::Ld | Conversion::Lx => 3,
        _ => 2,
    }
}

/// The log line with its specifiers replaced, leftmost first, by its
/// arguments in order (see `format_spec`).
pub fn format_log(entry: &LogEntry) -> (r: String)
    ensures
        r@ == format_spec(entry.fmt@, entry.args@),
{
    let fmt = entry.fmt.as_str();
    let n = char_len(fmt);
    let mut out = String::new();
    let mut i: usize = 0;
    let mut used: usize = 0;
    proof {
        assert(entry.fmt@.skip(0) =~= entry.fmt@);
        assert(entry.args@.skip(0) =~= entry.args@);
        assert(out@ + format_spec(entry.fmt@, entry.args@) =~= format_spec(entry.fmt@, entry.args@));
    }
    while i < n
        invariant
            n == fmt@.len(),
            fmt@ == entry.fmt@,
            i <= n,
            used <= entry.args@.len(),
            out@ + format_spec(fmt@.skip(i as int), entry.args@.skip(used as int)) == format_spec(
                entry.fmt@,
                entry.args@,
            ),
        decreases n - i,
    {
        let ghost rest = fmt@.skip(i as int);
        let ghost args = entry.args@.skip(used as int);
        if used == entry.args.len() {
            let ghost before = out@;
            while i < n
                invariant
                    n == fmt@.len(),
                    i <= n,
                    out@ + fmt@.skip(i as int) == before + rest,
                decreases n - i,
            {
                let c = char_at(fmt, i);
                let ghost o = out@;
                push_char(&mut out, c);
                proof {
                    assert(fmt@.skip(i as int) =~= seq![c] + fmt@.skip(i + 1));
                    assert(out@ + fmt@.skip(i + 1) =~= o + fmt@.skip(i as int));
                }
                i = i + 1;
            }
            proof {
                assert(args.len() == 0);
                assert(out@ =~= before + rest);
            }
            return out;
        }
        match conversion_at_exec(fmt, i) {
            Some(c) => {
                let ghost o = out@;
                push_rendered(&mut out, c, entry.args[used]);
                let len = conversion_len(c);
                proof {
                    assert(fmt@.skip(i as int).skip(len as int) =~= fmt@.skip(i + len));
                    assert(args.drop_first() =~= entry.args@.skip(used + 1));
                    assert(args[0] == entry.args@[used as int]);
                    assert(out@ + format_spec(fmt@.skip(i + len), entry.args@.skip(used + 1)) =~= o
                        + format_spec(rest, args));
                }
                i = i + len;
                used = used + 1;
            },
            None => {
                let c = char_at(fmt, i);
                let ghost o = out@;
                push_char(&mut out, c);
                proof {
                    assert(rest[0] == c);
                    assert(rest.drop_first() =~= fmt@.skip(i + 1));
                    assert(out@ + format_spec(fmt@.skip(i + 1), args) =~= o + format_spec(rest, args));
                }
                i = i + 1;
            },
        }
    }
    proof {
        assert(fmt@.skip(i as int).len() == 0);
        assert(out@ + format_spec(fmt@.skip(i as int), entry.args@.skip(used as int)) =~= out@);
    }
    out
}

/// The colored tag a report line starts with.
pub open spec fn status_tag(s: TestStatus) -> Seq<char> {
    match s {
        TestStatus::Pass => "\x1b[32m[PASS]\x1b[0m "@,
        TestStatus::Fail => "\x1b[31m[FAIL]\x1b[0m "@,
        TestStatus::Skip => "\x1b[33m[SKIP]\x1b[0m "@,
        TestStatus::FrameworkError => "\x1b[35m[FRAMEWORK ERROR]\x1b[0m "@,
    }
}

/// The first line of a test's report: its colored status and its name.
pub fn status_line(test: &TestResult) -> (r: String)
    ensures
        r@ == status_tag(test.status) + test.name@,
{
    let tag = match test.status {
        TestStatus::Pass => "\x1b[32m[PASS]\x1b[0m ",
        TestStatus::Fail => "\x1b[31m[FAIL]\x1b[0m ",
        TestStatus::Skip => "\x1b[33m[SKIP]\x1b[0m ",
        TestStatus::FrameworkError => "\x1b[35m[FRAMEWORK ERROR]\x1b[0m ",
    };
    let mut out = String::new();
    push_str(&mut out, tag);
    push_str(&mut out, test.name.as_str());
    proof {
        assert(out@ =~= status_tag(test.status) + test.name@);
    }
    out
}

/// The report block of one log line: `<file>:<line>:`, a line break, the
/// formatted line and another line break.
pub fn log_block(file: &str, entry: &LogEntry) -> (r: String)
    ensures
        r@ == file@ + seq![':'] + decimal(entry.line as nat) + seq![':', '\n'] + format_spec(
            entry.fmt@,
            entry.args@,
        ) + seq!['\n'],
{
    let mut out = String::new();
    push_str(&mut out, file);
    push_char(&mut out, ':');
    let n = decimal_string(entry.line as u128);
    push_str(&mut out, n.as_str());
    push_char(&mut out, ':');
    push_char(&mut out, '\n');
    let body = format_log(entry);
    push_str(&mut out, body.as_str());
    push_char(&mut out, '\n');
    proof {
        assert(out@ =~= file@ + seq![':'] + decimal(entry.line as nat) + seq![':', '\n']
            + format_spec(entry.fmt@, entry.args@) + seq!['\n']);
    }
    out
}

/// A format is printed as it is when there are no arguments, and when it
/// holds no `%` whatever the arguments.
pub proof fn law_format_leaves_plain_text(fmt: Seq<char>, args: Seq<u64>)
    ensures
        format_spec(fmt, seq![]) == fmt,
        (forall|i: int| 0 <= i < fmt.len() ==> fmt[i] != '%') ==> format_spec(fmt, args) == fmt,
    decreases fmt.len(),
{
    if fmt.len() > 0 && args.len() > 0 && (forall|i: int| 0 <= i < fmt.len() ==> fmt[i] != '%') {
        assert(conversion_at(fmt) is None) by {
            assert(fmt.subrange(0, 1)[0] == fmt[0]);
            assert(fmt[0] != '%');
        }
        let rest = fmt.drop_first();
        assert forall|i: int| 0 <= i < rest.len() implies rest[i] != '%' by {
            assert(rest[i] == fmt[i + 1]);
        }
        law_format_leaves_plain_text(rest, args);
        assert(seq![fmt[0]] + rest =~= fmt);
    }
}

proof fn lemma_not_starts(s: Seq<char>, p: Seq<char>, i: int)
    requires
        0 <= i < p.len(),
        i < s.len(),
        s[i] != p[i],
    ensures
        !starts_with(s, p),
{
    if p.len() <= s.len() {
        assert(s.subrange(0, p.len() as int)[i] == s[i]);
    }
}

/// A text that begins with the text of a specifier is read as that
/// specifier.
proof fn lemma_conversion_at_text(c: Conversion, rest: Seq<char>)
    ensures
        conversion_at(conversion_text(c) + rest) == Some(c),
{
    let s = conversion_text(c) + rest;
    let t = conversion_text(c);
    assert(s.subrange(0, t.len() as int) =~= t);
    assert(forall|i: int| 0 <= i < t.len() ==> s[i] == t[i]);
    let llu = conversion_text(Conversion::Llu);
    let lld = conversion_text(Conversion::Lld);
    let lu = conversion_text(Conversion::Lu);
    let ld = conversion_text(Conversion::Ld);
    let u = conversion_text(Conversion::U);
    let d = conversion_text(Conversion::D);
    let llx = conversion_text(Conversion::Llx);
    let lx = conversion_text(Conversion::Lx);
    let x = conversion_text(Conversion::X);
    match c {
        Conversion::Llu => {},
        Conversion::Lld => {
            lemma_not_starts(s, llu, 3);
        },
        Conversion::Lu => {
            lemma_not_starts(s, llu, 2);
            lemma_not_starts(s, lld, 2);
        },
        Conversion::Ld => {
            lemma_not_starts(s, llu, 2);
            lemma_not_starts(s, lld, 2);
            lemma_not_starts(s, lu, 2);
        },
        Conversion::U => {
            lemma_not_starts(s, llu, 1);
            lemma_not_starts(s, lld, 1);
            lemma_not_starts(s, lu, 1);
            lemma_not_starts(s, ld, 1);
        },
        Conversion::D => {
            lemma_not_starts(s, llu, 1);
            lemma_not_starts(s, lld, 1);
            lemma_not_starts(s, lu, 1);
            lemma_not_starts(s, ld, 1);
            lemma_not_starts(s, u, 1);
        },
        Conversion::Llx => {
            lemma_not_starts(s, llu, 3);
            lemma_not_starts(s, lld, 3);
            lemma_not_starts(s, lu, 2);
            lemma_not_starts(s, ld, 2);
            lemma_not_starts(s, u, 1);
            lemma_not_starts(s, d, 1);
        },
        Conversion::Lx => {
            lemma_not_starts(s, llu, 2);
            lemma_not_starts(s, lld, 2);
            lemma_not_starts(s, lu, 2);
            lemma_not_starts(s, ld, 2);
            lemma_not_starts(s, u, 1);
            lemma_not_starts(s, d, 1);
            lemma_not_starts(s, llx, 2);
        },
        Conversion::X => {
            lemma_not_starts(s, llu, 1);
            lemma_not_starts(s, lld, 1);
            lemma_not_starts(s, lu, 1);
            lemma_not_starts(s, ld, 1);
            lemma_not_starts(s, u, 1);
            lemma_not_starts(s, d, 1);
            lemma_not_starts(s, llx, 1);
            lemma_not_starts(s, lx, 1);
        },
        Conversion::P => {
            lemma_not_starts(s, llu, 1);
            lemma_not_starts(s, lld, 1);
            lemma_not_starts(s, lu, 1);
            lemma_not_starts(s, ld, 1);
            lemma_not_starts(s, u, 1);
            lemma_not_starts(s, d, 1);
            lemma_not_starts(s, llx, 1);
            lemma_not_starts(s, lx, 1);
            lemma_not_starts(s, x, 1);
        },
    }
}

proof fn lemma_format_first(c: Conversion, rest: Seq<char>, v: u64, args: Seq<u64>)
    ensures
        format_spec(conversion_text(c) + rest, seq![v] + args) == rendered(c, v) + format_spec(rest, args),
{
    lemma_conversion_at_text(c, rest);
    let fmt = conversion_text(c) + rest;
    let a = seq![v] + args;
    assert(fmt.skip(conversion_text(c).len() as int) =~= rest);
    assert(a.drop_first() =~= args);
    assert(a[0] == v);
}

/// How each specifier fills in its argument: `%llu`, `%lu` and `%u` in
/// unsigned decimal; `%lld`, `%ld` and `%d` in decimal, as a signed
/// 64-bit number; `%llx`, `%lx` and `%x` as `0x` and the hexadecimal
/// digits; `%p` as `0x` and 16 hexadecimal digits. The rest of the format
/// is then filled in with the rest of the arguments.
pub proof fn law_specifiers(v: u64, rest: Seq<char>, args: Seq<u64>)
    ensures
        format_spec(seq!['%', 'l', 'l', 'u'] + rest, seq![v] + args) == decimal(v as nat) + format_spec(rest, args),
        format_spec(seq!['%', 'l', 'u'] + rest, seq![v] + args) == decimal(v as nat) + format_spec(rest, args),
        format_spec(seq!['%', 'u'] + rest, seq![v] + args) == decimal(v as nat) + format_spec(rest, args),
        format_spec(seq!['%', 'l', 'l', 'd'] + rest, seq![v] + args) == signed_decimal(v) + format_spec(rest, args),
        format_spec(seq!['%', 'l', 'd'] + rest, seq![v] + args) == signed_decimal(v) + format_spec(rest, args),
        format_spec(seq!['%', 'd'] + rest, seq![v] + args) == signed_decimal(v) + format_spec(rest, args),
        format_spec(seq!['%', 'l', 'l', 'x'] + rest, seq![v] + args) == seq!['0', 'x'] + hex_text(v as nat)
            + format_spec(rest, args),
        format_spec(seq!['%', 'l', 'x'] + rest, seq![v] + args) == seq!['0', 'x'] + hex_text(v as nat)
            + format_spec(rest, args),
        format_spec(seq!['%', 'x'] + rest, seq![v] + args) == seq!['0', 'x'] + hex_text(v as nat)
            + format_spec(rest, args),
        format_spec(seq!['%', 'p'] + rest, seq![v] + args) == seq!['0', 'x'] + hex_padded(v as nat, 16)
            + format_spec(rest, args),
{
    lemma_format_first(Conversion::Llu, rest, v, args);
    lemma_format_first(Conversion::Lu, rest, v, args);
    lemma_format_first(Conversion::U, rest, v, args);
    lemma_format_first(Conversion::Lld, rest, v, args);
    lemma_format_first(Conversion::Ld, rest, v, args);
    lemma_format_first(Conversion::D, rest, v, args);
    lemma_format_first(Conversion::Llx, rest, v, args);
    lemma_format_first(Conversion::Lx, rest, v, args);
    lemma_format_first(Conversion::X, rest, v, args);
    lemma_format_first(Conversion::P, rest, v, args);
}

/// A report line's tag names the test's status in brackets, coloured green
/// for a pass, red for a failure, yellow for a skip and magenta for a
/// framework error; distinct statuses get distinct tags.
pub proof fn law_status_tags(s: TestStatus, t: TestStatus)
    ensures
        s != t ==> status_tag(s) != status_tag(t),
        status_tag(TestStatus::Pass).subrange(0, 5) == seq!['\x1b', '[', '3', '2', 'm'],
        status_tag(TestStatus::Pass).subrange(5, 11) == seq!['[', 'P', 'A', 'S', 'S', ']'],
        status_tag(TestStatus::Fail).subrange(0, 5) == seq!['\x1b', '[', '3', '1', 'm'],
        status_tag(TestStatus::Fail).subrange(5, 11) == seq!['[', 'F', 'A', 'I', 'L', ']'],
        status_tag(TestStatus::Skip).subrange(0, 5) == seq!['\x1b', '[', '3', '3', 'm'],
        status_tag(TestStatus::Skip).subrange(5, 11) == seq!['[', 'S', 'K', 'I', 'P', ']'],
        status_tag(TestStatus::FrameworkError).subrange(0, 5) == seq!['\x1b', '[', '3', '5', 'm'],
        status_tag(TestStatus::FrameworkError).subrange(5, 22) == seq!['[', 'F', 'R', 'A', 'M', 'E', 'W', 'O', 'R', 'K', ' ', 'E', 'R', 'R', 'O', 'R', ']'],
{
    reveal_strlit("\x1b[32m[PASS]\x1b[0m ");
    assert("\x1b[32m[PASS]\x1b[0m "@ =~= seq!['\x1b', '[', '3', '2', 'm', '[', 'P', 'A', 'S', 'S', ']', '\x1b', '[', '0', 'm', ' ']);
    reveal_strlit("\x1b[31m[FAIL]\x1b[0m ");
    assert("\x1b[31m[FAIL]\x1b[0m "@ =~= seq!['\x1b', '[', '3', '1', 'm', '[', 'F', 'A', 'I', 'L', ']', '\x1b', '[', '0', 'm', ' ']);
    reveal_strlit("\x1b[33m[SKIP]\x1b[0m ");
    assert("\x1b[33m[SKIP]\x1b[0m "@ =~= seq!['\x1b', '[', '3', '3', 'm', '[', 'S', 'K', 'I', 'P', ']', '\x1b', '[', '0', 'm', ' ']);
    reveal_strlit("\x1b[35m[FRAMEWORK ERROR]\x1b[0m ");
    assert("\x1b[35m[FRAMEWORK ERROR]\x1b[0m "@ =~= seq!['\x1b', '[', '3', '5', 'm', '[', 'F', 'R', 'A', 'M', 'E', 'W', 'O', 'R', 'K', ' ', 'E', 'R', 'R', 'O', 'R', ']', '\x1b', '[', '0', 'm', ' ']);
    let l = status_tag(s);
    let m = status_tag(t);
    if s != t && l == m {
        assert(l.subrange(0, 5) == m.subrange(0, 5));
    }
    assert(status_tag(TestStatus::Pass).subrange(0, 5) =~= seq!['\x1b', '[', '3', '2', 'm']);
    assert(status_tag(TestStatus::Fail).subrange(0, 5) =~= seq!['\x1b', '[', '3', '1', 'm']);
    assert(status_tag(TestStatus::Skip).subrange(0, 5) =~= seq!['\x1b', '[', '3', '3', 'm']);
    assert(status_tag(TestStatus::FrameworkError).subrange(0, 5) =~= seq!['\x1b', '[', '3', '5', 'm']);
    assert(status_tag(TestStatus::Pass).subrange(5, 11) =~= seq!['[', 'P', 'A', 'S', 'S', ']']);
    assert(status_tag(TestStatus::Fail).subrange(5, 11) =~= seq!['[', 'F', 'A', 'I', 'L', ']']);
    assert(status_tag(TestStatus::Skip).subrange(5, 11) =~= seq!['[', 'S', 'K', 'I', 'P', ']']);
    assert(status_tag(TestStatus::FrameworkError).subrange(5, 22) =~= seq!['[', 'F', 'R', 'A', 'M', 'E', 'W', 'O', 'R', 'K', ' ', 'E', 'R', 'R', 'O', 'R', ']']);
}

/// The number lowercase hexadecimal digits denote.
pub open spec fn hex_value(s: Seq<char>) -> int
    decreases s.len(),
{
    if s.len() == 0 {
        0
    } else {
        let c = s.last() as int;
        hex_value(s.drop_last()) * 16 + if c <= ('9' as int) {
            c - ('0' as int)
        } else {
            c - ('a' as int) + 10
        }
    }
}

/// Whether `c` is one of `0`-`9`, `a`-`f`.
pub open spec fn is_hex_digit(c: char) -> bool {
    (('0' as int) <= (c as int) <= ('9' as int)) || (('a' as int) <= (c as int) <= ('f' as int))
}

/// `hex_text(n)` is a non-empty run of lowercase hexadecimal digits,
/// without a leading zero unless `n` is zero, and it denotes `n`.
pub proof fn law_hex_text(n: nat)
    ensures
        hex_text(n).len() > 0,
        forall|i: int| 0 <= i < hex_text(n).len() ==> is_hex_digit(#[trigger] hex_text(n)[i]),
        hex_value(hex_text(n)) == n,
        hex_text(n)[0] == '0' ==> n == 0,
    decreases n,
{
    if n < 16 {
        let d = hex_text(n);
        assert(d.drop_last() =~= Seq::<char>::empty());
        if n < 10 {
            assert((hex_digit(n) as int) == ('0' as int) + n);
        } else {
            assert((hex_digit(n) as int) == ('a' as int) + n - 10);
        }
        assert(hex_value(Seq::<char>::empty()) == 0);
        assert(hex_value(d) == hex_value(d.drop_last()) * 16 + (if (d.last() as int) <= ('9' as int) {
            (d.last() as int) - ('0' as int)
        } else {
            (d.last() as int) - ('a' as int) + 10
        }));
    } else {
        law_hex_text(n / 16);
        let p = hex_text(n / 16);
        let d = hex_text(n);
        assert(d.drop_last() == p);
        let r = n % 16;
        if r < 10 {
            assert((d.last() as int) == ('0' as int) + r);
        } else {
            assert((d.last() as int) == ('a' as int) + r - 10);
        }
        assert(n == (n / 16) * 16 + n % 16);
        assert(hex_value(p) == n / 16);
        assert(hex_value(d) == hex_value(d.drop_last()) * 16 + (if (d.last() as int) <= ('9' as int) {
            (d.last() as int) - ('0' as int)
        } else {
            (d.last() as int) - ('a' as int) + 10
        }));
        assert(d[0] == p[0]);
        assert forall|i: int| 0 <= i < d.len() implies is_hex_digit(#[trigger] d[i]) by {
            if i < p.len() {
                assert(d[i] == p[i]);
            }
        }
    }
}

} // verus!
