use vstd::prelude::*;

use crate::error::CodicatError;
use vstd::utf8::{decode_utf8, valid_utf8};

verus! {

/// What decoding `b` as UTF-8 gives: the text, or `None` where `b` is not
/// well-formed UTF-8.
pub open spec fn utf8_decode(b: Seq<u8>) -> Option<Seq<char>> {
    if valid_utf8(b) {
        Some(decode_utf8(b))
    } else {
        None
    }
}

/// Relies on std::str::from_utf8: it accepts exactly the well-formed UTF-8
/// byte strings, and gives the characters they encode.
#[verifier::external_body]
fn decode_text(b: &Vec<u8>) -> (r: Option<String>)
    ensures
        r is Some <==> valid_utf8(b@),
        r matches Some(s) ==> s@ == decode_utf8(b@),
{
    match std::str::from_utf8(b.as_slice()) {
        Ok(s) => Some(s.to_string()),
        Err(_) => None,
    }
}

/// How many leading bytes the binary test looks at.
pub const BINARY_PROBE_LEN: usize = 8000;

/// How many hyphens make a rule line.
pub const RULE_WIDTH: usize = 80;

/// The part of the content that the binary test looks at.
pub open spec fn probe_len(b: Seq<u8>) -> int {
    if b.len() < BINARY_PROBE_LEN {
        b.len() as int
    } else {
        BINARY_PROBE_LEN as int
    }
}

/// A zero byte among the first 8000.
pub open spec fn looks_binary(b: Seq<u8>) -> bool {
    exists|i: int| 0 <= i < probe_len(b) && b[i] == 0
}

/// Whether the content counts as binary: a zero byte among its first 8000.
pub fn is_binary_file(content: &Vec<u8>) -> (r: bool)
    ensures
        r == looks_binary(content@),
{
    let n = if content.len() < BINARY_PROBE_LEN {
        content.len()
    } else {
        BINARY_PROBE_LEN
    };
    let mut i: usize = 0;
    while i < n
        invariant
            n == probe_len(content@),
            n <= content@.len(),
            i <= n,
            forall|k: int| 0 <= k < i ==> content@[k] != 0,
        decreases n - i,
    {
        if content[i] == 0 {
            return true;
        }
        i = i + 1;
    }
    false
}

/// The first position at or after `i` that holds a line feed, or the length.
pub open spec fn line_end(b: Seq<u8>, i: int) -> int
    decreases b.len() - i,
{
    if i < 0 || i >= b.len() || b[i] == 10 {
        i
    } else {
        line_end(b, i + 1)
    }
}

/// The line that runs from `i` up to `e`, where its line feed stands or
/// the content ends; the line feed itself is not part of it.
pub open spec fn line_text(b: Seq<u8>, i: int, e: int) -> Seq<u8> {
    b.subrange(i, e)
}

/// The lines of `b` from position `i` on.
pub open spec fn lines_at(b: Seq<u8>, i: int) -> Seq<Seq<u8>>
    decreases b.len() - i,
{
    if i < 0 || i >= b.len() {
        Seq::empty()
    } else {
        let e = line_end(b, i);
        if e < i || e >= b.len() {
            seq![line_text(b, i, e)]
        } else {
            seq![line_text(b, i, e)] + lines_at(b, e + 1)
        }
    }
}

/// The lines of a file: each run of bytes up to a line feed, and the bytes
/// after the last line feed if there are any.
pub open spec fn lines_of(b: Seq<u8>) -> Seq<Seq<u8>> {
    lines_at(b, 0)
}

/// How many lines are shown: all where `max` is 0, else at most `max`.
pub open spec fn shown_count(total: int, max: int) -> int {
    if max == 0 || max > total {
        total
    } else {
        max
    }
}

pub open spec fn digit(d: int) -> Seq<char> {
    if d == 0 {
        "0"@
    } else if d == 1 {
        "1"@
    } else if d == 2 {
        "2"@
    } else if d == 3 {
        "3"@
    } else if d == 4 {
        "4"@
    } else if d == 5 {
        "5"@
    } else if d == 6 {
        "6"@
    } else if d == 7 {
        "7"@
    } else if d == 8 {
        "8"@
    } else {
        "9"@
    }
}

/// The decimal digits of `n`.
pub open spec fn decimal(n: nat) -> Seq<char>
    decreases n,
{
    if n < 10 {
        digit(n as int)
    } else {
        decimal(n / 10) + digit((n % 10) as int)
    }
}

/// `s` padded on the left with spaces to four characters.
pub open spec fn pad4(s: Seq<char>) -> Seq<char> {
    if s.len() < 4 {
        Seq::new((4 - s.len()) as nat, |i: int| ' ') + s
    } else {
        s
    }
}

/// Line `n` of the body: its number right-aligned in four columns, ` | `, the text.
pub open spec fn numbered_line(n: nat, text: Seq<char>) -> Seq<char> {
    pad4(decimal(n)) + " | "@ + text + "\n"@
}

/// The first `n` lines all decode as UTF-8.
pub open spec fn lines_decode(ls: Seq<Seq<u8>>, n: int) -> bool {
    forall|k: int| 0 <= k < n ==> (#[trigger] utf8_decode(ls[k])) is Some
}

/// The numbered text of the first `n` lines.
pub open spec fn body_text(ls: Seq<Seq<u8>>, n: int) -> Seq<char>
    decreases n,
{
    if n <= 0 {
        Seq::empty()
    } else {
        body_text(ls, n - 1) + numbered_line(n as nat, utf8_decode(ls[n - 1])->Some_0)
    }
}

pub open spec fn rule_line() -> Seq<char> {
    Seq::new(RULE_WIDTH as nat, |i: int| '-')
}

/// `s` with each backslash turned into a forward slash.
pub open spec fn forward_slashes(s: Seq<char>) -> Seq<char> {
    s.map_values(|c: char| if c == '\\' { '/' } else { c })
}

pub open spec fn header_text(path: Seq<char>) -> Seq<char> {
    "\n\n/"@ + forward_slashes(path) + "\n"@ + rule_line() + "\n"@
}

pub open spec fn footer_text() -> Seq<char> {
    "\n\n"@ + rule_line() + "\n"@
}

pub open spec fn binary_view(path: Seq<char>) -> Seq<char> {
    header_text(path) + "[binary file omitted]\n"@ + footer_text()
}

/// The view of a text file whose shown lines all decode.
pub open spec fn text_view(path: Seq<char>, content: Seq<u8>, max: int) -> Seq<char> {
    let ls = lines_of(content);
    header_text(path) + body_text(ls, shown_count(ls.len() as int, max)) + footer_text()
}

/// The content decodes where it is shown.
pub open spec fn shown_lines_decode(content: Seq<u8>, max: int) -> bool {
    let ls = lines_of(content);
    lines_decode(ls, shown_count(ls.len() as int, max))
}

fn append_rule(out: &mut String)
    ensures
        final(out)@ == old(out)@ + rule_line(),
{
    proof {
        reveal_strlit("-");
    }
    let mut i: usize = 0;
    while i < RULE_WIDTH
        invariant
            i <= RULE_WIDTH,
            out@ == old(out)@ + Seq::new(i as nat, |k: int| '-'),
        decreases RULE_WIDTH - i,
    {
        proof {
            reveal_strlit("-");
        }
        assert("-"@ =~= seq!['-']);
        out.append("-");
        i = i + 1;
        assert(out@ =~= old(out)@ + Seq::new(i as nat, |k: int| '-'));
    }
}

/// Appends `path` to `out` with each backslash turned into a forward slash.
fn append_forward_slashes(path: &str, out: &mut String)
    ensures
        final(out)@ == old(out)@ + forward_slashes(path@),
{
    proof {
        reveal_strlit("/");
    }
    let n = path.unicode_len();
    let mut start: usize = 0;
    let mut i: usize = 0;
    assert(path@.subrange(0, 0) =~= Seq::<char>::empty());
    while i < n
        invariant
            n == path@.len(),
            start <= i <= n,
            out@ == old(out)@ + forward_slashes(path@.subrange(0, start as int)),
            forall|k: int| start <= k < i ==> path@[k] != '\\',
        decreases n - i,
    {
        if path.get_char(i) == '\\' {
            let ghost out0 = out@;
            out.append(path.substring_char(start, i));
            out.append("/");
            proof {
            reveal_strlit("/");
        }
        assert("/"@ =~= seq!['/']);
            assert(forward_slashes(path@.subrange(start as int, i as int)) =~= path@.subrange(
                start as int,
                i as int,
            ));
            assert(path@.subrange(0, i + 1) =~= path@.subrange(0, start as int) + path@.subrange(
                start as int,
                i as int,
            ) + seq!['\\']);
            assert(forward_slashes(path@.subrange(0, i + 1)) =~= forward_slashes(
                path@.subrange(0, start as int),
            ) + path@.subrange(start as int, i as int) + "/"@);
            start = i + 1;
        }
        i = i + 1;
    }
    out.append(path.substring_char(start, n));
    assert(forward_slashes(path@.subrange(start as int, n as int)) =~= path@.subrange(
        start as int,
        n as int,
    ));
    assert(path@.subrange(0, n as int) =~= path@.subrange(0, start as int) + path@.subrange(
        start as int,
        n as int,
    ));
    assert(forward_slashes(path@.subrange(0, n as int)) =~= forward_slashes(
        path@.subrange(0, start as int),
    ) + path@.subrange(start as int, n as int));
    assert(path@.subrange(0, n as int) =~= path@);
}

/// Appends the header of a file block: two blank lines, the path after a
/// slash, and a rule.
fn print_file_header(path: &str, out: &mut String)
    ensures
        final(out)@ == old(out)@ + header_text(path@),
{
    let ghost out0 = out@;
    out.append("\n\n/");
    append_forward_slashes(path, out);
    out.append("\n");
    append_rule(out);
    out.append("\n");
    assert(out@ =~= out0 + header_text(path@));
}

/// Appends the footer of a file block: two blank lines and a rule.
pub fn print_file_footer(out: &mut String)
    ensures
        final(out)@ == old(out)@ + footer_text(),
{
    let ghost out0 = out@;
    out.append("\n\n");
    append_rule(out);
    out.append("\n");
    assert(out@ =~= out0 + footer_text());
}

fn digit_str(d: usize) -> (r: &'static str)
    requires
        d < 10,
    ensures
        r@ == digit(d as int),
{
    if d == 0 {
        "0"
    } else if d == 1 {
        "1"
    } else if d == 2 {
        "2"
    } else if d == 3 {
        "3"
    } else if d == 4 {
        "4"
    } else if d == 5 {
        "5"
    } else if d == 6 {
        "6"
    } else if d == 7 {
        "7"
    } else if d == 8 {
        "8"
    } else {
        "9"
    }
}

fn append_decimal(n: usize, out: &mut String)
    ensures
        final(out)@ == old(out)@ + decimal(n as nat),
    decreases n,
{
    let ghost out0 = out@;
    if n >= 10 {
        append_decimal(n / 10, out);
    }
    out.append(digit_str(n % 10));
    assert(out@ =~= out0 + decimal(n as nat));
}

/// Appends line `n` of a body, numbered, with its text.
fn append_numbered_line(n: usize, text: &str, out: &mut String)
    ensures
        final(out)@ == old(out)@ + numbered_line(n as nat, text@),
{
    proof {
        reveal_strlit(" ");
    }
    let ghost out0 = out@;
    let mut num = String::new();
    append_decimal(n, &mut num);
    assert(num@ =~= decimal(n as nat));
    let len = num.as_str().unicode_len();
    let mut pad: usize = len;
    while pad < 4
        invariant
            len == num@.len(),
            len <= pad <= 4 || (len > 4 && pad == len),
            out@ == out0 + Seq::new((pad - len) as nat, |i: int| ' '),
        decreases 4 - pad,
    {
        proof {
            reveal_strlit(" ");
        }
        assert(" "@ =~= seq![' ']);
        out.append(" ");
        pad = pad + 1;
        assert(out@ =~= out0 + Seq::new((pad - len) as nat, |i: int| ' '));
    }
    out.append(num.as_str());
    out.append(" | ");
    out.append(text);
    out.append("\n");
    assert(out@ =~= out0 + numbered_line(n as nat, text@));
}

/// Appends the numbered lines of `content`, all of them where `max_lines`
/// is 0, else at most `max_lines`. Fails, leaving `out` as it was, where a
/// line to be shown is not UTF-8.
fn print_file_body_with_lines(content: &Vec<u8>, out: &mut String, max_lines: usize) -> (r: bool)
    ensures
        r == shown_lines_decode(content@, max_lines as int),
        r ==> final(out)@ == old(out)@ + body_text(
            lines_of(content@),
            shown_count(lines_of(content@).len() as int, max_lines as int),
        ),
        !r ==> final(out)@ == old(out)@,
{
    let ghost ls = lines_of(content@);
    let ghost b = content@;
    let mut body = String::new();
    let mut i: usize = 0;
    let mut count: usize = 0;
    assert(ls =~= Seq::<Seq<u8>>::empty() + lines_at(b, 0));
    while i < content.len() && (max_lines == 0 || count < max_lines)
        invariant
            b == content@,
            ls == lines_of(b),
            i <= b.len(),
            count <= i,
            count <= ls.len(),
            max_lines == 0 || count <= max_lines,
            ls == ls.subrange(0, count as int) + lines_at(b, i as int),
            lines_decode(ls, count as int),
            body@ == body_text(ls, count as int),
        decreases b.len() - i,
    {
        let mut j: usize = i;
        while j < content.len() && content[j] != 10
            invariant
                b == content@,
                i <= j <= b.len(),
                line_end(b, i as int) == line_end(b, j as int),
            decreases b.len() - j,
        {
            j = j + 1;
        }
        let ghost e = j as int;
        assert(line_end(b, e) == e);
        let stop = j;
        let mut line: Vec<u8> = Vec::new();
        let mut k: usize = i;
        while k < stop
            invariant
                b == content@,
                i <= k <= stop <= b.len(),
                line@ =~= b.subrange(i as int, k as int),
            decreases stop - k,
        {
            line.push(content[k]);
            k = k + 1;
        }
        let ghost next = if e < b.len() {
            e + 1
        } else {
            e
        };
        proof {
            assert(line@ =~= line_text(b, i as int, e));
            assert(lines_at(b, i as int) == seq![line_text(b, i as int, e)] + lines_at(b, next));
            assert(ls.len() == count + lines_at(b, i as int).len());
            assert(ls[count as int] == line@);
            assert(ls.subrange(0, count + 1) =~= ls.subrange(0, count as int) + seq![line@]);
            assert(ls =~= ls.subrange(0, count + 1) + lines_at(b, next));
        }
        match decode_text(&line) {
            Some(text) => {
                append_numbered_line(count + 1, text.as_str(), &mut body);
            },
            None => {
                assert(utf8_decode(ls[count as int]) is None);
                assert(count < shown_count(ls.len() as int, max_lines as int));
                return false;
            },
        }
        count = count + 1;
        if j < content.len() {
            i = j + 1;
        } else {
            i = j;
        }
        assert(lines_decode(ls, count as int));
    }
    proof {
        assert(ls.len() == count + lines_at(b, i as int).len());
        if i >= content.len() {
            assert(lines_at(b, i as int) =~= Seq::<Seq<u8>>::empty());
        }
        assert(count == shown_count(ls.len() as int, max_lines as int));
    }
    out.append(body.as_str());
    true
}

/// Where a file to be rendered comes from.
#[derive(Debug)]
pub enum FileSource {
    /// The path names a directory.
    Directory,
    /// The file could not be opened or read.
    Unreadable { reason: String },
    /// The file's bytes.
    Bytes { content: Vec<u8> },
}

/// Appends the block of one file: its header, then the placeholder
/// `[binary file omitted]` where the content looks binary, else its numbered
/// lines, then its footer. `max_lines` 0 shows every line. On failure `out`
/// is left as it was.
pub fn file_view_with_lines(
    path: &str,
    source: &FileSource,
    out: &mut String,
    max_lines: usize,
) -> (r: Result<(), CodicatError>)
    ensures
        match source {
            FileSource::Directory => r matches Err(CodicatError::NotAFile { path: p }) && p@
                == path@,
            FileSource::Unreadable { reason } => r matches Err(
                CodicatError::IOError { path: p, reason: q },
            ) && p@ == path@ && q@ == reason@,
            FileSource::Bytes { content } => if looks_binary(content@) {
                r is Ok
            } else if shown_lines_decode(content@, max_lines as int) {
                r is Ok
            } else {
                r matches Err(CodicatError::EncodingError { path: p }) && p@ == path@
            },
        },
        r is Ok ==> (source matches FileSource::Bytes { content } && final(out)@ == old(out)@ + (
        if looks_binary(content@) {
            binary_view(path@)
        } else {
            text_view(path@, content@, max_lines as int)
        })),
        r is Err ==> final(out)@ == old(out)@,
{
    match source {
        FileSource::Directory => Err(CodicatError::NotAFile { path: String::from_str(path) }),
        FileSource::Unreadable { reason } => Err(
            CodicatError::IOError { path: String::from_str(path), reason: reason.clone() },
        ),
        FileSource::Bytes { content } => {
            let mut block = String::new();
            print_file_header(path, &mut block);
            if is_binary_file(content) {
                block.append("[binary file omitted]\n");
            } else if !print_file_body_with_lines(content, &mut block, max_lines) {
                return Err(CodicatError::EncodingError { path: String::from_str(path) });
            }
            print_file_footer(&mut block);
            out.append(block.as_str());
            Ok(())
        },
    }
}

/// The parts one after another.
pub open spec fn concat_all(parts: Seq<Seq<char>>) -> Seq<char>
    decreases parts.len(),
{
    if parts.len() == 0 {
        Seq::empty()
    } else {
        concat_all(parts.drop_last()) + parts.last()
    }
}

/// The first `n` lines, each numbered: line `k` of `ls` gets number `k + 1`.
pub open spec fn numbered_lines(ls: Seq<Seq<u8>>, n: int) -> Seq<Seq<char>> {
    Seq::new(n as nat, |k: int| numbered_line((k + 1) as nat, utf8_decode(ls[k])->Some_0))
}

/// A text file's block holds exactly `min(max, total)` numbered lines where
/// `max` is above 0, and all `total` lines where it is 0; they are numbered
/// 1, 2, ... in order, so none is numbered past `max`.
pub proof fn lemma_line_limit(path: Seq<char>, content: Seq<u8>, max: int)
    requires
        max >= 0,
    ensures
        ({
            let ls = lines_of(content);
            let n = shown_count(ls.len() as int, max);
            &&& max == 0 ==> n == ls.len()
            &&& max > 0 ==> n == (if max < ls.len() {
                max
            } else {
                ls.len() as int
            })
            &&& text_view(path, content, max) == header_text(path) + concat_all(
                numbered_lines(ls, n),
            ) + footer_text()
        }),
{
    let ls = lines_of(content);
    let n = shown_count(ls.len() as int, max);
    lemma_body_lines(ls, n);
}

proof fn lemma_body_lines(ls: Seq<Seq<u8>>, n: int)
    requires
        n >= 0,
    ensures
        body_text(ls, n) == concat_all(numbered_lines(ls, n)),
    decreases n,
{
    if n > 0 {
        lemma_body_lines(ls, n - 1);
        assert(numbered_lines(ls, n).drop_last() =~= numbered_lines(ls, n - 1));
    } else {
        assert(numbered_lines(ls, n) =~= Seq::<Seq<char>>::empty());
    }
}

proof fn lemma_body_prefix(ls1: Seq<Seq<u8>>, ls2: Seq<Seq<u8>>, n: int)
    requires
        0 <= n <= ls1.len(),
        n <= ls2.len(),
        ls1.subrange(0, n) == ls2.subrange(0, n),
    ensures
        body_text(ls1, n) == body_text(ls2, n),
        lines_decode(ls1, n) == lines_decode(ls2, n),
    decreases n,
{
    assert forall|k: int| 0 <= k < n implies ls1[k] == ls2[k] by {
        assert(ls1.subrange(0, n)[k] == ls2.subrange(0, n)[k]);
    }
    if n > 0 {
        assert(ls1.subrange(0, n - 1) =~= ls2.subrange(0, n - 1));
        lemma_body_prefix(ls1, ls2, n - 1);
    }
}

/// With `max` above 0, lines after the first `max` never change a text
/// block: two contents that both have at least `max` lines, and agree on
/// the first `max`, render alike, and decode alike where it matters.
pub proof fn lemma_later_lines_ignored(path: Seq<char>, c1: Seq<u8>, c2: Seq<u8>, max: int)
    requires
        max > 0,
        lines_of(c1).len() >= max,
        lines_of(c2).len() >= max,
        lines_of(c1).subrange(0, max) == lines_of(c2).subrange(0, max),
    ensures
        shown_lines_decode(c1, max) == shown_lines_decode(c2, max),
        text_view(path, c1, max) == text_view(path, c2, max),
{
    lemma_body_prefix(lines_of(c1), lines_of(c2), max);
}

} // verus!
