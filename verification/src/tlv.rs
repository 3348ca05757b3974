//! Reading the result record an in-kernel test writes: a flat sequence of
//! tag/length/value records, each `[tag: u8][len: u8][value: len bytes]`.
//! The first record must carry the wire version; then come the test's
//! name, file and status and its log lines, each log line being a format
//! record followed by an optional line-number record and argument records.
use vstd::prelude::*;
use vstd::bytes::{spec_u32_from_le_bytes, spec_u64_from_le_bytes, u32_from_le_bytes, u64_from_le_bytes};
use vstd::slice::slice_subrange;

use crate::ip::{decimal, decimal_string};
use crate::report::{hex_padded, push_hex_padded, push_str};

verus! {

/// The version of the record format this reader understands.
pub const WIRE_VERSION: u8 = 1;

/// The kinds of record.
#[derive(Clone, Copy, Debug, PartialEq, Eq, Structural)]
pub enum Tag {
    Version,
    TestName,
    TestFile,
    TestStatus,
    LogFmt,
    LogLine,
    LogArg,
}

/// The outcome a test reports.
#[derive(Clone, Copy, Debug, PartialEq, Eq, Structural)]
pub enum TestStatus {
    Pass,
    Fail,
    Skip,
    FrameworkError,
}

/// The byte that stands for a tag on the wire.
pub open spec fn tag_code(t: Tag) -> u8 {
    match t {
        Tag::Version => 0,
        Tag::TestName => 1,
        Tag::TestFile => 2,
        Tag::TestStatus => 3,
        Tag::LogFmt => 4,
        Tag::LogLine => 5,
        Tag::LogArg => 6,
    }
}

/// The tag a wire byte stands for, if any.
pub open spec fn tag_of(b: u8) -> Option<Tag> {
    if b == 0 {
        Some(Tag::Version)
    } else if b == 1 {
        Some(Tag::TestName)
    } else if b == 2 {
        Some(Tag::TestFile)
    } else if b == 3 {
        Some(Tag::TestStatus)
    } else if b == 4 {
        Some(Tag::LogFmt)
    } else if b == 5 {
        Some(Tag::LogLine)
    } else if b == 6 {
        Some(Tag::LogArg)
    } else {
        None
    }
}

/// The status a wire byte stands for; unknown bytes read as a framework
/// error.
pub open spec fn status_of(b: u8) -> TestStatus {
    if b == 0 {
        TestStatus::Pass
    } else if b == 1 {
        TestStatus::Fail
    } else if b == 2 {
        TestStatus::Skip
    } else {
        TestStatus::FrameworkError
    }
}

impl Tag {
    pub fn code(self) -> (r: u8)
        ensures
            r == tag_code(self),
    {
        match self {
            Tag::Version => 0,
            Tag::TestName => 1,
            Tag::TestFile => 2,
            Tag::TestStatus => 3,
            Tag::LogFmt => 4,
            Tag::LogLine => 5,
            Tag::LogArg => 6,
        }
    }

    pub fn from_u8(b: u8) -> (r: Option<Tag>)
        ensures
            r == tag_of(b),
    {
        if b == 0 {
            Some(Tag::Version)
        } else if b == 1 {
            Some(Tag::TestName)
        } else if b == 2 {
            Some(Tag::TestFile)
        } else if b == 3 {
            Some(Tag::TestStatus)
        } else if b == 4 {
            Some(Tag::LogFmt)
        } else if b == 5 {
            Some(Tag::LogLine)
        } else if b == 6 {
            Some(Tag::LogArg)
        } else {
            None
        }
    }
}

impl TestStatus {
    pub fn from_u8(b: u8) -> (r: TestStatus)
        ensures
            r == status_of(b),
    {
        if b == 0 {
            TestStatus::Pass
        } else if b == 1 {
            TestStatus::Fail
        } else if b == 2 {
            TestStatus::Skip
        } else {
            TestStatus::FrameworkError
        }
    }
}

/// One log line: its format string, source line and arguments.
#[derive(Debug)]
pub struct LogEntry {
    pub fmt: String,
    pub line: u32,
    pub args: Vec<u64>,
}

/// A parsed test result.
#[derive(Debug)]
pub struct TestResult {
    pub name: String,
    pub file: String,
    pub status: TestStatus,
    pub logs: Vec<LogEntry>,
}

/// Why a record could not be read.
#[derive(Debug, Clone, Copy, PartialEq, Eq, Structural)]
pub enum ParseError {
    MissingVersionTag,
    IncompatibleVersion { found: u8 },
    TruncatedHeader { offset: usize },
    TruncatedValue { offset: usize, expected: usize },
    BadTagLength { tag: u8, expected: usize, found: usize },
    OrphanLogField { offset: usize },
}

/// What a log entry holds: (format, line, arguments).
pub type LogView = (Seq<char>, u32, Seq<u64>);

/// What a test result holds.
pub struct ResultView {
    pub name: Seq<char>,
    pub file: Seq<char>,
    pub status: TestStatus,
    pub logs: Seq<LogView>,
}

impl LogEntry {
    pub open spec fn view(&self) -> LogView {
        (self.fmt@, self.line, self.args@)
    }
}

impl TestResult {
    pub open spec fn view(&self) -> ResultView {
        ResultView {
            name: self.name@,
            file: self.file@,
            status: self.status,
            logs: Seq::new(self.logs@.len(), |i: int| self.logs@[i].view()),
        }
    }
}

/// The text `String::from_utf8_lossy` makes of some bytes: the bytes
/// decoded as UTF-8, each invalid sequence replaced by U+FFFD.
pub uninterp spec fn lossy_text(b: Seq<u8>) -> Seq<char>;

/// Decodes bytes as UTF-8, replacing invalid sequences.
///
/// Calls `String::from_utf8_lossy`; the text is named `lossy_text` of the
/// bytes.
#[verifier::external_body]
fn utf8_lossy(b: &[u8]) -> (r: String)
    ensures
        r@ == lossy_text(b@),
{
    String::from_utf8_lossy(b).into_owned()
}

/// The record at `cur`: (tag, value, position after the record).
pub open spec fn next_tlv_spec(data: Seq<u8>, cur: int) -> Result<(u8, Seq<u8>, int), ParseError> {
    if cur + 2 > data.len() {
        Err(ParseError::TruncatedHeader { offset: cur as usize })
    } else if cur + 2 + data[cur + 1] > data.len() {
        Err(ParseError::TruncatedValue { offset: (cur + 2) as usize, expected: data[cur + 1] as usize })
    } else {
        Ok((data[cur], data.subrange(cur + 2, cur + 2 + data[cur + 1]), cur + 2 + data[cur + 1]))
    }
}

/// The result being built, after one record at `offset` with `tag` and
/// `value`.
pub open spec fn apply_record(st: ResultView, offset: int, tag: u8, value: Seq<u8>) -> Result<ResultView, ParseError> {
    match tag_of(tag) {
        Some(Tag::TestName) => Ok(ResultView { name: lossy_text(value), ..st }),
        Some(Tag::TestFile) => Ok(ResultView { file: lossy_text(value), ..st }),
        Some(Tag::TestStatus) => if value.len() != 1 {
            Err(ParseError::BadTagLength { tag: 3, expected: 1, found: value.len() as usize })
        } else {
            Ok(ResultView { status: status_of(value[0]), ..st })
        },
        Some(Tag::LogFmt) => Ok(ResultView { logs: st.logs.push((lossy_text(value), 0u32, Seq::empty())), ..st }),
        Some(Tag::LogLine) => if value.len() != 4 {
            Err(ParseError::BadTagLength { tag: 5, expected: 4, found: value.len() as usize })
        } else if st.logs.len() == 0 {
            Err(ParseError::OrphanLogField { offset: offset as usize })
        } else {
            let last = st.logs.last();
            Ok(ResultView { logs: st.logs.update(st.logs.len() - 1, (last.0, spec_u32_from_le_bytes(value), last.2)), ..st })
        },
        Some(Tag::LogArg) => if value.len() != 8 {
            Err(ParseError::BadTagLength { tag: 6, expected: 8, found: value.len() as usize })
        } else if st.logs.len() == 0 {
            Err(ParseError::OrphanLogField { offset: offset as usize })
        } else {
            let last = st.logs.last();
            Ok(ResultView { logs: st.logs.update(st.logs.len() - 1, (last.0, last.1, last.2.push(spec_u64_from_le_bytes(value)))), ..st })
        },
        _ => Ok(st),
    }
}

/// The result of reading the records from `cur` on, starting from `st`.
pub open spec fn parse_records(data: Seq<u8>, cur: int, st: ResultView) -> Result<ResultView, ParseError>
    decreases data.len() - cur,
{
    if cur < 0 || cur >= data.len() {
        Ok(st)
    } else {
        match next_tlv_spec(data, cur) {
            Err(e) => Err(e),
            Ok((tag, value, next)) => match apply_record(st, cur, tag, value) {
                Err(e) => Err(e),
                Ok(st2) => parse_records(data, next, st2),
            },
        }
    }
}

/// The result before any record after the version: nothing named, a
/// framework error until a status is reported, no logs.
pub open spec fn initial_result() -> ResultView {
    ResultView { name: Seq::empty(), file: Seq::empty(), status: TestStatus::FrameworkError, logs: Seq::empty() }
}

/// The result `data` holds.
pub open spec fn parse_test_spec(data: Seq<u8>) -> Result<ResultView, ParseError> {
    match next_tlv_spec(data, 0) {
        Err(e) => Err(e),
        Ok((tag, value, next)) => if tag != tag_code(Tag::Version) {
            Err(ParseError::MissingVersionTag)
        } else if value != seq![WIRE_VERSION] {
            Err(ParseError::IncompatibleVersion { found: value[0] })
        } else {
            parse_records(data, next, initial_result())
        },
    }
}

/// Reading from `cur` with `st` passes record by record, without error,
/// through position `b`, where the result read so far is `stb`.
pub open spec fn reaches(data: Seq<u8>, cur: int, st: ResultView, b: int, stb: ResultView) -> bool
    decreases data.len() - cur,
{
    if cur == b {
        0 <= cur <= data.len() && st == stb
    } else if cur < 0 || cur >= data.len() || cur > b {
        false
    } else {
        match next_tlv_spec(data, cur) {
            Err(_) => false,
            Ok((tag, value, next)) => match apply_record(st, cur, tag, value) {
                Err(_) => false,
                Ok(st2) => reaches(data, next, st2, b, stb),
            },
        }
    }
}

/// `b` is a record boundary after the version record of `data`.
pub open spec fn is_boundary(data: Seq<u8>, b: int) -> bool {
    match next_tlv_spec(data, 0) {
        Ok((_, _, first_end)) => exists|stb: ResultView|
            #[trigger] reaches(data, first_end, initial_result(), b, stb),
        Err(_) => false,
    }
}

proof fn lemma_reaches_bounds(data: Seq<u8>, cur: int, st: ResultView, b: int, stb: ResultView)
    requires
        reaches(data, cur, st, b, stb),
    ensures
        0 <= cur <= b <= data.len(),
    decreases data.len() - cur,
{
    if cur != b {
        let (tag, value, next) = next_tlv_spec(data, cur)->Ok_0;
        let st2 = apply_record(st, cur, tag, value)->Ok_0;
        lemma_reaches_bounds(data, next, st2, b, stb);
    }
}

proof fn lemma_reaches_parse(data: Seq<u8>, cur: int, st: ResultView, b: int, stb: ResultView)
    requires
        reaches(data, cur, st, b, stb),
    ensures
        parse_records(data, cur, st) == parse_records(data, b, stb),
    decreases data.len() - cur,
{
    if cur != b {
        let (tag, value, next) = next_tlv_spec(data, cur)->Ok_0;
        let st2 = apply_record(st, cur, tag, value)->Ok_0;
        lemma_reaches_parse(data, next, st2, b, stb);
    }
}

proof fn lemma_reaches_transfer(
    d0: Seq<u8>,
    d1: Seq<u8>,
    cur: int,
    st: ResultView,
    b: int,
    stb: ResultView,
)
    requires
        reaches(d0, cur, st, b, stb),
        b <= d1.len(),
        d1.take(b) == d0.take(b),
    ensures
        reaches(d1, cur, st, b, stb),
    decreases d0.len() - cur,
{
    lemma_reaches_bounds(d0, cur, st, b, stb);
    if cur != b {
        let (tag, value, next) = next_tlv_spec(d0, cur)->Ok_0;
        let st2 = apply_record(st, cur, tag, value)->Ok_0;
        lemma_reaches_bounds(d0, next, st2, b, stb);
        assert(d1[cur] == d0.take(b)[cur]);
        assert(d1[cur + 1] == d0.take(b)[cur + 1]);
        assert(d1.subrange(cur + 2, next) =~= d0.subrange(cur + 2, next)) by {
            assert forall|k: int| cur + 2 <= k < next implies d1[k] == d0[k] by {
                assert(d1[k] == d1.take(b)[k]);
                assert(d0[k] == d0.take(b)[k]);
            }
        }
        lemma_reaches_transfer(d0, d1, next, st2, b, stb);
    }
}

proof fn lemma_parse_shift(a: Seq<u8>, i: int, b: Seq<u8>, j: int, st: ResultView)
    requires
        0 <= i <= a.len(),
        0 <= j <= b.len(),
        a.skip(i) == b.skip(j),
        parse_records(a, i, st) is Ok,
    ensures
        parse_records(b, j, st) == parse_records(a, i, st),
    decreases a.len() - i,
{
    assert(a.len() - i == a.skip(i).len());
    assert(b.len() - j == b.skip(j).len());
    if i < a.len() {
        assert(a[i] == a.skip(i)[0]);
        assert(b[j] == b.skip(j)[0]);
        if i + 2 <= a.len() {
            assert(a[i + 1] == a.skip(i)[1]);
            assert(b[j + 1] == b.skip(j)[1]);
            let n = a[i + 1] as int;
            if i + 2 + n <= a.len() {
                assert(a.subrange(i + 2, i + 2 + n) =~= b.subrange(j + 2, j + 2 + n)) by {
                    assert forall|k: int| 0 <= k < n implies #[trigger] a.subrange(i + 2, i + 2 + n)[k] == b.subrange(j + 2, j + 2 + n)[k] by {
                        assert(a[i + 2 + k] == a.skip(i)[2 + k]);
                        assert(b[j + 2 + k] == b.skip(j)[2 + k]);
                    }
                }
                let value = a.subrange(i + 2, i + 2 + n);
                let st2 = apply_record(st, i, a[i], value)->Ok_0;
                assert(a.skip(i + 2 + n) =~= b.skip(j + 2 + n)) by {
                    assert forall|k: int| 0 <= k < a.len() - (i + 2 + n) implies #[trigger] a.skip(i + 2 + n)[k] == b.skip(j + 2 + n)[k] by {
                        assert(a[i + 2 + n + k] == a.skip(i)[2 + n + k]);
                        assert(b[j + 2 + n + k] == b.skip(j)[2 + n + k]);
                    }
                }
                lemma_parse_shift(a, i + 2 + n, b, j + 2 + n, st2);
            }
        }
    }
}

/// A record whose tag the reader does not know, or a second version
/// record, changes nothing: inserted at any record boundary after the
/// version record of data that reads without error, it leaves the result
/// as it was.
pub proof fn law_unknown_records_are_skipped(d0: Seq<u8>, b: int, tag: u8, value: Seq<u8>)
    requires
        parse_test_spec(d0) is Ok,
        is_boundary(d0, b),
        value.len() < 256,
        tag_of(tag) is None || tag_of(tag) == Some(Tag::Version),
    ensures
        parse_test_spec(d0.take(b) + seq![tag, value.len() as u8] + value + d0.skip(b))
            == parse_test_spec(d0),
{
    let rec = seq![tag, value.len() as u8] + value;
    let d1 = d0.take(b) + rec + d0.skip(b);
    let (t0, v0, first_end) = next_tlv_spec(d0, 0)->Ok_0;
    let stb = choose|stb: ResultView| #[trigger] reaches(d0, first_end, initial_result(), b, stb);
    lemma_reaches_bounds(d0, first_end, initial_result(), b, stb);
    assert(d1.len() == d0.len() + rec.len());
    assert(d1.take(b) =~= d0.take(b));
    assert(d1[0] == d0[0] && d1[1] == d0[1]) by {
        assert(d1[0] == d1.take(b)[0]);
        assert(d0[0] == d0.take(b)[0]);
        assert(d1[1] == d1.take(b)[1]);
        assert(d0[1] == d0.take(b)[1]);
    }
    assert(d1.subrange(2, first_end) =~= d0.subrange(2, first_end)) by {
        assert forall|k: int| 2 <= k < first_end implies d1[k] == d0[k] by {
            assert(d1[k] == d1.take(b)[k]);
            assert(d0[k] == d0.take(b)[k]);
        }
    }
    assert(next_tlv_spec(d1, 0) == next_tlv_spec(d0, 0));
    lemma_reaches_transfer(d0, d1, first_end, initial_result(), b, stb);
    lemma_reaches_parse(d0, first_end, initial_result(), b, stb);
    lemma_reaches_parse(d1, first_end, initial_result(), b, stb);
    // the inserted record
    assert(d1[b] == tag && d1[b + 1] == value.len() as u8);
    assert(d1.subrange(b + 2, b + 2 + value.len()) =~= value);
    assert(apply_record(stb, b, tag, value) == Ok::<ResultView, ParseError>(stb));
    assert(parse_records(d1, b, stb) == parse_records(d1, b + rec.len(), stb));
    assert(d1.skip(b + rec.len()) =~= d0.skip(b));
    lemma_parse_shift(d0, b, d1, b + rec.len(), stb);
    assert(parse_records(d1, first_end, initial_result()) == parse_records(d0, first_end, initial_result()));
    assert(parse_test_spec(d1) == parse_test_spec(d0));
    assert(d0.take(b) + seq![tag, value.len() as u8] + value + d0.skip(b) =~= d1);
}

/// Reads the record at `*cur` and moves `*cur` past it.
pub fn next_tlv<'a>(data: &'a [u8], cur: &mut usize) -> (r: Result<(u8, &'a [u8]), ParseError>)
    ensures
        match next_tlv_spec(data@, *old(cur) as int) {
            Err(e) => r == Err::<(u8, &[u8]), ParseError>(e) && (if e is TruncatedHeader {
                *final(cur) == *old(cur)
            } else {
                *final(cur) == *old(cur) + 2
            }),
            Ok((tag, value, next)) => r matches Ok((t, v)) && t == tag && v@ == value && *final(cur) == next,
        },
{
    if *cur > data.len() || data.len() - *cur < 2 {
        return Err(ParseError::TruncatedHeader { offset: *cur });
    }
    let tag = data[*cur];
    let len = data[*cur + 1] as usize;
    *cur = *cur + 2;
    if data.len() - *cur < len {
        return Err(ParseError::TruncatedValue { offset: *cur, expected: len });
    }
    let value = slice_subrange(data, *cur, *cur + len);
    *cur = *cur + len;
    Ok((tag, value))
}

/// Parses the single flat test result written by a test.
pub fn parse_test(data: &[u8]) -> (r: Result<TestResult, ParseError>)
    requires
        // a version record without a value cannot be told apart from any
        // version: there is no byte to report
        !(data@.len() >= 2 && data@[0] == tag_code(Tag::Version) && data@[1] == 0),
    ensures
        match parse_test_spec(data@) {
            Err(e) => r == Err::<TestResult, ParseError>(e),
            Ok(v) => r matches Ok(res) && res@ == v,
        },
{
    let mut cur: usize = 0;
    let mut name = String::new();
    let mut file = String::new();
    let mut status = TestStatus::FrameworkError;
    let mut logs: Vec<LogEntry> = Vec::new();

    let (tag, value) = match next_tlv(data, &mut cur) {
        Ok(p) => p,
        Err(e) => return Err(e),
    };
    if tag != Tag::Version.code() {
        return Err(ParseError::MissingVersionTag);
    }
    if !(value.len() == 1 && value[0] == WIRE_VERSION) {
        proof {
            assert(value@.len() >= 1);
            if value@.len() == 1 {
                assert(value@ != seq![WIRE_VERSION]);
            }
        }
        return Err(ParseError::IncompatibleVersion { found: value[0] });
    }
    proof {
        assert(value@ =~= seq![WIRE_VERSION]);
    }
    let ghost target = parse_test_spec(data@);
    proof {
        assert(Seq::new(logs@.len(), |i: int| logs@[i].view()) =~= Seq::<LogView>::empty());
        assert(name@ =~= Seq::<char>::empty());
        assert(file@ =~= Seq::<char>::empty());
    }
    while cur < data.len()
        invariant
            cur <= data@.len(),
            target == parse_test_spec(data@),
            target == parse_records(
                data@,
                cur as int,
                ResultView { name: name@, file: file@, status, logs: Seq::new(logs@.len(), |i: int| logs@[i].view()) },
            ),
        decreases data@.len() - cur,
    {
        let offset = cur;
        let ghost st = ResultView { name: name@, file: file@, status, logs: Seq::new(logs@.len(), |i: int| logs@[i].view()) };
        let (tag, value) = match next_tlv(data, &mut cur) {
            Ok(p) => p,
            Err(e) => return Err(e),
        };
        match Tag::from_u8(tag) {
            Some(Tag::TestName) => {
                name = utf8_lossy(value);
            },
            Some(Tag::TestFile) => {
                file = utf8_lossy(value);
            },
            Some(Tag::TestStatus) => {
                if value.len() != 1 {
                    return Err(ParseError::BadTagLength { tag: Tag::TestStatus.code(), expected: 1, found: value.len() });
                }
                status = TestStatus::from_u8(value[0]);
            },
            Some(Tag::LogFmt) => {
                logs.push(LogEntry { fmt: utf8_lossy(value), line: 0, args: Vec::new() });
                proof {
                    assert(Seq::new(logs@.len(), |i: int| logs@[i].view()) =~= st.logs.push(
                        (lossy_text(value@), 0u32, Seq::empty()),
                    ));
                }
            },
            Some(Tag::LogLine) => {
                if value.len() != 4 {
                    return Err(ParseError::BadTagLength { tag: Tag::LogLine.code(), expected: 4, found: value.len() });
                }
                let mut entry = match logs.pop() {
                    Some(e) => e,
                    None => return Err(ParseError::OrphanLogField { offset }),
                };
                entry.line = u32_from_le_bytes(value);
                logs.push(entry);
                proof {
                    let last = st.logs.last();
                    assert(Seq::new(logs@.len(), |i: int| logs@[i].view()) =~= st.logs.update(
                        st.logs.len() - 1,
                        (last.0, spec_u32_from_le_bytes(value@), last.2),
                    ));
                }
            },
            Some(Tag::LogArg) => {
                if value.len() != 8 {
                    return Err(ParseError::BadTagLength { tag: Tag::LogArg.code(), expected: 8, found: value.len() });
                }
                let mut entry = match logs.pop() {
                    Some(e) => e,
                    None => return Err(ParseError::OrphanLogField { offset }),
                };
                entry.args.push(u64_from_le_bytes(value));
                logs.push(entry);
                proof {
                    let last = st.logs.last();
                    assert(Seq::new(logs@.len(), |i: int| logs@[i].view()) =~= st.logs.update(
                        st.logs.len() - 1,
                        (last.0, last.1, last.2.push(spec_u64_from_le_bytes(value@))),
                    ));
                }
            },
            _ => {},
        }
        proof {
            let now = ResultView { name: name@, file: file@, status, logs: Seq::new(logs@.len(), |i: int| logs@[i].view()) };
            assert(apply_record(st, offset as int, tag, value@) == Ok::<ResultView, ParseError>(now));
        }
    }
    Ok(TestResult { name, file, status, logs })
}

/// The message of a parse error.
pub open spec fn parse_error_text(e: ParseError) -> Seq<char> {
    match e {
        ParseError::MissingVersionTag => "first record is not a Version tag"@,
        ParseError::IncompatibleVersion { found } => "incompatible wire version: found "@ + decimal(
            found as nat,
        ) + ", expected "@ + decimal(WIRE_VERSION as nat),
        ParseError::TruncatedHeader { offset } => "truncated TLV header at offset "@ + decimal(
            offset as nat,
        ),
        ParseError::TruncatedValue { offset, expected } => "truncated TLV value at offset "@
            + decimal(offset as nat) + ": need "@ + decimal(expected as nat) + " bytes"@,
        ParseError::BadTagLength { tag, expected, found } => "tag 0x"@ + hex_padded(tag as nat, 2)
            + " expects "@ + decimal(expected as nat) + " bytes, found "@ + decimal(found as nat),
        ParseError::OrphanLogField { offset } => "LogLine/LogArg at offset "@ + decimal(offset as nat)
            + " with no preceding LogFmt"@,
    }
}

impl ParseError {
    /// The error's message.
    pub fn message(&self) -> (r: String)
        ensures
            r@ == parse_error_text(*self),
    {
        let mut out = String::new();
        match *self {
            ParseError::MissingVersionTag => {
                push_str(&mut out, "first record is not a Version tag");
            },
            ParseError::IncompatibleVersion { found } => {
                push_str(&mut out, "incompatible wire version: found ");
                push_str(&mut out, decimal_string(found as u128).as_str());
                push_str(&mut out, ", expected ");
                push_str(&mut out, decimal_string(WIRE_VERSION as u128).as_str());
            },
            ParseError::TruncatedHeader { offset } => {
                push_str(&mut out, "truncated TLV header at offset ");
                push_str(&mut out, decimal_string(offset as u128).as_str());
            },
            ParseError::TruncatedValue { offset, expected } => {
                push_str(&mut out, "truncated TLV value at offset ");
                push_str(&mut out, decimal_string(offset as u128).as_str());
                push_str(&mut out, ": need ");
                push_str(&mut out, decimal_string(expected as u128).as_str());
                push_str(&mut out, " bytes");
            },
            ParseError::BadTagLength { tag, expected, found } => {
                push_str(&mut out, "tag 0x");
                push_hex_padded(&mut out, tag as u64, 2);
                push_str(&mut out, " expects ");
                push_str(&mut out, decimal_string(expected as u128).as_str());
                push_str(&mut out, " bytes, found ");
                push_str(&mut out, decimal_string(found as u128).as_str());
            },
            ParseError::OrphanLogField { offset } => {
                push_str(&mut out, "LogLine/LogArg at offset ");
                push_str(&mut out, decimal_string(offset as u128).as_str());
                push_str(&mut out, " with no preceding LogFmt");
            },
        }
        proof {
            assert(out@ =~= parse_error_text(*self));
        }
        out
    }
}

/// Reading back the byte written for a tag gives the tag, and only the
/// bytes written for tags read as tags.
pub proof fn law_tag_code_round_trip(t: Tag, b: u8)
    ensures
        tag_of(tag_code(t)) == Some(t),
        tag_of(b) matches Some(u) ==> tag_code(u) == b,
{
}

/// The status bytes: 0 is a pass, 1 a failure, 2 a skipped test, and
/// every other byte a framework error; so every status can be written.
pub proof fn law_status_bytes(b: u8, s: TestStatus)
    ensures
        status_of(0) == TestStatus::Pass,
        status_of(1) == TestStatus::Fail,
        status_of(2) == TestStatus::Skip,
        b >= 3 ==> status_of(b) == TestStatus::FrameworkError,
        exists|c: u8| #[trigger] status_of(c) == s,
{
    match s {
        TestStatus::Pass => assert(status_of(0) == s),
        TestStatus::Fail => assert(status_of(1) == s),
        TestStatus::Skip => assert(status_of(2) == s),
        TestStatus::FrameworkError => assert(status_of(3) == s),
    }
}

} // verus!
