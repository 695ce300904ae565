//! Small shared helpers: lines, newlines, hex, identifiers, path keys, time.

use crate::text::{
    ascii_lower, ascii_lower_of, chars_of, equal_ignoring_case, holds, join, join_of,
    lemma_join_split, lower_of, lowercase, opt_str_view, opt_view, own, part, push_text,
    same_ignoring_case, same_str, split, split_on, starts_with, string_of, strip_cr, text_lines,
    views,
};
use sha2::Digest;
use vstd::prelude::*;

verus! {

// ---------------------------------------------------------------------------
// Lines
// ---------------------------------------------------------------------------

/// `s` with every `\r\n` turned into `\n`.
pub open spec fn unix_of(s: Seq<char>) -> Seq<char>
    decreases s.len(),
{
    if s.len() == 0 {
        s
    } else if s.len() >= 2 && s[0] == '\r' && s[1] == '\n' {
        seq!['\n'] + unix_of(s.skip(2))
    } else {
        seq![s[0]] + unix_of(s.skip(1))
    }
}

pub proof fn lemma_unix_len(s: Seq<char>)
    ensures
        unix_of(s).len() <= s.len(),
    decreases s.len(),
{
    if s.len() >= 2 && s[0] == '\r' && s[1] == '\n' {
        lemma_unix_len(s.skip(2));
    } else if s.len() > 0 {
        lemma_unix_len(s.skip(1));
    }
}

/// Turns every `\r\n` into `\n`.
pub fn unix_newlines(s: &[char]) -> (out: Vec<char>)
    ensures
        out@ == unix_of(s@),
{
    let mut out: Vec<char> = Vec::new();
    let mut i: usize = 0;
    assert(s@.skip(0) == s@);
    while i < s.len()
        invariant
            i <= s.len(),
            out@ + unix_of(s@.skip(i as int)) == unix_of(s@),
        decreases s.len() - i,
    {
        let ghost rest = s@.skip(i as int);
        let ghost before = out@;
        if s[i] == '\r' && i + 1 < s.len() && s[i + 1] == '\n' {
            assert(rest.skip(2) == s@.skip(i + 2));
            out.push('\n');
            assert(before + (seq!['\n'] + unix_of(rest.skip(2))) == out@ + unix_of(rest.skip(2)));
            i += 2;
        } else {
            assert(rest.skip(1) == s@.skip(i + 1));
            out.push(s[i]);
            assert(before + (seq![rest[0]] + unix_of(rest.skip(1))) == out@ + unix_of(
                rest.skip(1),
            ));
            i += 1;
        }
    }
    assert(out@ + unix_of(s@.skip(s@.len() as int)) == out@);
    out
}

/// Does a document end with a newline?
pub open spec fn ends_in_newline(text: Seq<char>) -> bool {
    unix_of(text).len() > 0 && unix_of(text).last() == '\n'
}

/// The lines of a document, without their newlines. The empty document has
/// none; a final newline ends the last line and opens no further one.
pub open spec fn lines_of(text: Seq<char>) -> Seq<Seq<char>> {
    let n = unix_of(text);
    if n.len() == 0 {
        Seq::empty()
    } else if n.last() == '\n' {
        split_on(n.drop_last(), '\n')
    } else {
        split_on(n, '\n')
    }
}

/// The lines with `newline` between them, and one more behind the last if
/// `trailing` says so.
pub open spec fn document_of(
    lines: Seq<Seq<char>>,
    trailing: bool,
    newline: Seq<char>,
) -> Seq<char> {
    if trailing {
        join_of(lines, newline) + newline
    } else {
        join_of(lines, newline)
    }
}

/// A document has at most one line more than it has characters.
pub proof fn lemma_line_bound(text: Seq<char>)
    ensures
        lines_of(text).len() <= text.len() + 1,
{
    let n = unix_of(text);
    lemma_unix_len(text);
    if n.len() > 0 {
        crate::text::lemma_split_len(n, '\n');
        crate::text::lemma_split_len(n.drop_last(), '\n');
    }
}

/// Splits into lines, keeping the information needed to round-trip exactly:
/// the trailing-newline flag is returned separately.
pub fn split_lines(text: &str) -> (out: (Vec<String>, bool))
    ensures
        views(out.0@) == lines_of(text@),
        out.1 == ends_in_newline(text@),
{
    let chars = chars_of(text);
    let normalized = unix_newlines(&chars);
    let n: usize = normalized.len();
    if n == 0 {
        let none: Vec<String> = Vec::new();
        assert(views(none@) == Seq::<Seq<char>>::empty());
        return (none, false);
    }
    if normalized[n - 1] == '\n' {
        assert(normalized@.subrange(0, n - 1) == normalized@.drop_last());
        (split(crate::text::part(&normalized, 0, n - 1), '\n'), true)
    } else {
        (split(&normalized, '\n'), false)
    }
}

/// Joins lines back into a document.
pub fn join_lines(lines: &[String], trailing_newline: bool, newline: &str) -> (out: String)
    ensures
        out@ == document_of(views(lines@), trailing_newline, newline@),
{
    let mut out = join(lines, newline);
    if trailing_newline {
        out.append(newline);
    }
    out
}

/// A document split into lines and joined again is the document, with every
/// `\r\n` turned into `\n`.
pub proof fn law_lines_round_trip(text: Seq<char>)
    ensures
        document_of(lines_of(text), ends_in_newline(text), seq!['\n']) == unix_of(text),
{
    let n = unix_of(text);
    if n.len() > 0 && n.last() == '\n' {
        lemma_join_split(n.drop_last(), '\n');
        assert(n == n.drop_last() + seq!['\n']);
    } else if n.len() > 0 {
        lemma_join_split(n, '\n');
    }
}

/// Does no newline character stand in a line?
pub open spec fn one_line(s: Seq<char>) -> bool {
    forall|k: int| 0 <= k < s.len() ==> s[k] != '\n' && s[k] != '\r'
}

/// Does no newline character stand in any line?
pub open spec fn all_one_line(lines: Seq<Seq<char>>) -> bool {
    forall|i: int| 0 <= i < lines.len() ==> one_line(#[trigger] lines[i])
}

/// Turning newlines into line feeds works line by line.
pub proof fn lemma_unix_line(line: Seq<char>, newline: Seq<char>, rest: Seq<char>)
    requires
        one_line(line),
        newline == seq!['\n'] || newline == seq!['\r', '\n'],
    ensures
        unix_of(line + newline + rest) == line + seq!['\n'] + unix_of(rest),
        unix_of(line) == line,
    decreases line.len(),
{
    let s = line + newline + rest;
    if line.len() == 0 {
        if newline.len() == 1 {
            assert(s[0] == '\n');
            assert(s.skip(1) =~= rest);
            assert(unix_of(s) =~= line + seq!['\n'] + unix_of(rest));
        } else {
            assert(s[0] == '\r' && s[1] == '\n');
            assert(s.skip(2) =~= rest);
            assert(unix_of(s) =~= line + seq!['\n'] + unix_of(rest));
        }
    } else {
        let tail = line.skip(1);
        assert(one_line(tail)) by {
            assert forall|k: int| 0 <= k < tail.len() implies tail[k] != '\n' && tail[k]
                != '\r' by {
                assert(tail[k] == line[k + 1]);
            }
        }
        assert(s[0] == line[0] && s[0] != '\r');
        assert(s.skip(1) =~= tail + newline + rest);
        lemma_unix_line(tail, newline, rest);
        assert(seq![line[0]] + (tail + seq!['\n'] + unix_of(rest)) =~= line + seq!['\n'] + unix_of(
            rest,
        ));
        assert(seq![line[0]] + tail =~= line);
    }
}

proof fn lemma_unix_join(lines: Seq<Seq<char>>, newline: Seq<char>)
    requires
        all_one_line(lines),
        newline == seq!['\n'] || newline == seq!['\r', '\n'],
    ensures
        unix_of(join_of(lines, newline)) == join_of(lines, seq!['\n']),
        unix_of(join_of(lines, newline) + newline) == join_of(lines, seq!['\n']) + seq!['\n'],
    decreases lines.len(),
{
    let empty = Seq::<char>::empty();
    if lines.len() == 0 {
        lemma_unix_line(empty, newline, empty);
        assert(empty + newline + empty =~= join_of(lines, newline) + newline);
        assert(empty + seq!['\n'] + unix_of(empty) =~= join_of(lines, seq!['\n']) + seq!['\n']);
    } else {
        let head = lines[0];
        let rest = lines.skip(1);
        assert(one_line(head));
        assert(all_one_line(rest)) by {
            assert forall|i: int| 0 <= i < rest.len() implies one_line(#[trigger] rest[i]) by {
                assert(rest[i] == lines[i + 1]);
            }
        }
        assert(lines =~= seq![head] + rest);
        crate::text::lemma_join_concat(seq![head], rest, newline);
        crate::text::lemma_join_concat(seq![head], rest, seq!['\n']);
        lemma_unix_join(rest, newline);
        if rest.len() == 0 {
            assert(seq![head] + rest =~= seq![head]);
            lemma_unix_line(head, newline, empty);
            assert(head + newline + empty =~= head + newline);
            assert(head + seq!['\n'] + unix_of(empty) =~= head + seq!['\n']);
        } else {
            let r = join_of(rest, newline);
            lemma_unix_line(head, newline, r);
            lemma_unix_line(head, newline, r + newline);
            assert(head + newline + r + newline =~= head + newline + (r + newline));
            assert(head + seq!['\n'] + (join_of(rest, seq!['\n']) + seq!['\n']) =~= head + seq![
                '\n',
            ] + join_of(rest, seq!['\n']) + seq!['\n']);
        }
    }
}

proof fn lemma_split_join(lines: Seq<Seq<char>>)
    requires
        all_one_line(lines),
        lines.len() > 0,
    ensures
        split_on(join_of(lines, seq!['\n']), '\n') == lines,
    decreases lines.len(),
{
    let head = lines[0];
    let rest = lines.skip(1);
    assert(one_line(head));
    assert(lines =~= seq![head] + rest);
    if rest.len() == 0 {
        crate::text::lemma_index_unique(head, '\n', head.len() as int);
        assert(seq![head] + rest =~= seq![head]);
    } else {
        crate::text::lemma_join_concat(seq![head], rest, seq!['\n']);
        let s = join_of(lines, seq!['\n']);
        assert(s == head + seq!['\n'] + join_of(rest, seq!['\n']));
        let n = head.len() as int;
        assert(s[n] == '\n');
        assert forall|k: int| 0 <= k < n implies s[k] != '\n' by {
            assert(s[k] == head[k]);
        }
        crate::text::lemma_index_unique(s, '\n', n);
        assert(s.take(n) =~= head);
        assert(s.skip(n + 1) =~= join_of(rest, seq!['\n']));
        assert(all_one_line(rest)) by {
            assert forall|i: int| 0 <= i < rest.len() implies one_line(#[trigger] rest[i]) by {
                assert(rest[i] == lines[i + 1]);
            }
        }
        lemma_split_join(rest);
    }
}

/// Lines joined into a document are the lines of that document. Without a
/// trailing newline the last line may not be empty: it would not be seen.
pub proof fn law_document_lines(lines: Seq<Seq<char>>, trailing: bool, newline: Seq<char>)
    requires
        all_one_line(lines),
        lines.len() > 0,
        trailing || lines.last().len() > 0,
        newline == "\n"@ || newline == "\r\n"@,
    ensures
        lines_of(document_of(lines, trailing, newline)) == lines,
        ends_in_newline(document_of(lines, trailing, newline)) == trailing,
{
    reveal_strlit("\n");
    reveal_strlit("\r\n");
    assert("\n"@ =~= seq!['\n']);
    assert("\r\n"@ =~= seq!['\r', '\n']);
    lemma_unix_join(lines, newline);
    lemma_split_join(lines);
    let joined = join_of(lines, seq!['\n']);
    if trailing {
        assert((joined + seq!['\n']).drop_last() =~= joined);
    } else {
        let last = lines.last();
        assert(one_line(lines[lines.len() - 1]));
        assert(joined.len() > 0 && joined.last() == last.last());
    }
}

/// A document without a trailing newline has a last line that is not empty.
pub proof fn lemma_last_line(text: Seq<char>)
    requires
        !ends_in_newline(text),
        lines_of(text).len() > 0,
    ensures
        lines_of(text).last().len() > 0,
{
    lemma_split_last(unix_of(text));
}

proof fn lemma_split_last(s: Seq<char>)
    requires
        s.len() > 0,
        s.last() != '\n',
    ensures
        split_on(s, '\n').len() > 0,
        split_on(s, '\n').last().len() > 0,
    decreases s.len(),
{
    crate::text::lemma_index_of(s, '\n');
    let i = crate::text::index_of(s, '\n');
    if i < s.len() {
        let rest = s.skip(i + 1);
        assert(rest.last() == s.last());
        lemma_split_last(rest);
    }
}

/// Turning newlines into line feeds, of a line that may hold carriage returns.
proof fn lemma_unix_at(line: Seq<char>, rest: Seq<char>)
    requires
        forall|k: int| 0 <= k < line.len() ==> line[k] != '\n',
    ensures
        unix_of(line + seq!['\n'] + rest) == strip_cr(line) + seq!['\n'] + unix_of(rest),
        unix_of(line) == line,
    decreases line.len(),
{
    let s = line + seq!['\n'] + rest;
    let n = line.len() as int;
    assert(s[n] == '\n');
    if n == 0 {
        assert(s.skip(1) =~= rest);
        assert(unix_of(s) =~= strip_cr(line) + seq!['\n'] + unix_of(rest));
    } else {
        let tail = line.skip(1);
        assert(s[0] == line[0]);
        assert forall|k: int| 0 <= k < tail.len() implies tail[k] != '\n' by {
            assert(tail[k] == line[k + 1]);
        }
        lemma_unix_at(tail, rest);
        assert(seq![line[0]] + tail =~= line);
        assert(unix_of(line) == line) by {
            if n >= 2 {
                assert(line[1] != '\n');
            }
        }
        if n == 1 && line[0] == '\r' {
            assert(s.skip(2) =~= rest);
            assert(strip_cr(line) =~= Seq::<char>::empty());
            assert(unix_of(s) =~= strip_cr(line) + seq!['\n'] + unix_of(rest));
        } else {
            if n >= 2 {
                assert(s[1] == line[1]);
                assert(tail.last() == line.last());
            }
            assert(s.skip(1) =~= tail + seq!['\n'] + rest);
            assert(seq![line[0]] + strip_cr(tail) =~= strip_cr(line));
            assert(unix_of(s) =~= strip_cr(line) + seq!['\n'] + unix_of(rest));
        }
    }
}

proof fn lemma_split_at(line: Seq<char>, rest: Seq<char>)
    requires
        forall|k: int| 0 <= k < line.len() ==> line[k] != '\n',
    ensures
        split_on(line + seq!['\n'] + rest, '\n') == seq![line] + split_on(rest, '\n'),
        split_on(line, '\n') == seq![line],
{
    let s = line + seq!['\n'] + rest;
    let n = line.len() as int;
    assert forall|k: int| 0 <= k < n implies s[k] != '\n' by {
        assert(s[k] == line[k]);
    }
    assert(s[n] == '\n');
    crate::text::lemma_index_unique(s, '\n', n);
    assert(s.take(n) =~= line);
    assert(s.skip(n + 1) =~= rest);
    crate::text::lemma_index_unique(line, '\n', n);
}

/// A document has the same lines whether its newlines are turned into line
/// feeds first or each line loses its carriage return.
pub proof fn lemma_same_lines(s: Seq<char>)
    ensures
        text_lines(s) == lines_of(s),
    decreases s.len(),
{
    crate::text::lemma_index_of(s, '\n');
    let i = crate::text::index_of(s, '\n');
    if s.len() == 0 {
        assert(text_lines(s) =~= lines_of(s));
    } else if i >= s.len() {
        lemma_unix_at(s, Seq::empty());
        lemma_split_at(s, Seq::empty());
        assert(s[s.len() - 1] != '\n');
    } else {
        let line = s.take(i);
        let rest = s.skip(i + 1);
        let b = strip_cr(line);
        assert(s =~= line + seq!['\n'] + rest);
        assert forall|k: int| 0 <= k < line.len() implies line[k] != '\n' by {
            assert(line[k] == s[k]);
        }
        lemma_unix_at(line, rest);
        lemma_same_lines(rest);
        let x = unix_of(rest);
        let n = unix_of(s);
        assert forall|k: int| 0 <= k < b.len() implies b[k] != '\n' by {
            assert(b[k] == line[k]);
        }
        if rest.len() == 0 {
            assert(n.drop_last() =~= b);
            lemma_split_at(b, Seq::empty());
            assert(seq![b] + text_lines(rest) =~= seq![b]);
        } else {
            assert(x.len() > 0);
            assert(n.last() == x.last());
            lemma_split_at(b, x);
            lemma_split_at(b, x.drop_last());
            assert(n.drop_last() =~= b + seq!['\n'] + x.drop_last());
        }
    }
}

/// How often `\r\n` stands in `s`.
pub open spec fn crlf_count(s: Seq<char>) -> nat
    decreases s.len(),
{
    if s.len() < 2 {
        0
    } else {
        crlf_count(s.drop_last()) + if s[s.len() - 2] == '\r' && s.last() == '\n' {
            1nat
        } else {
            0nat
        }
    }
}

/// How often `\n` stands in `s`.
pub open spec fn newline_count(s: Seq<char>) -> nat
    decreases s.len(),
{
    if s.len() == 0 {
        0
    } else {
        newline_count(s.drop_last()) + if s.last() == '\n' {
            1nat
        } else {
            0nat
        }
    }
}

/// The newline that a document uses: `\r\n` if most of its newlines are.
pub open spec fn newline_of(text: Seq<char>) -> Seq<char> {
    if 2 * crlf_count(text) > newline_count(text) {
        "\r\n"@
    } else {
        "\n"@
    }
}

/// Detects the newline convention of an existing document so edits preserve it.
pub fn dominant_newline(text: &str) -> (out: &'static str)
    ensures
        out@ == newline_of(text@),
{
    let s = chars_of(text);
    let mut crlf: usize = 0;
    let mut all: usize = 0;
    let mut i: usize = 0;
    assert(s@.take(0).len() == 0);
    while i < s.len()
        invariant
            i <= s.len(),
            crlf <= all <= i,
            crlf == crlf_count(s@.take(i as int)),
            all == newline_count(s@.take(i as int)),
        decreases s.len() - i,
    {
        assert(s@.take(i + 1).drop_last() == s@.take(i as int));
        if s[i] == '\n' {
            all += 1;
            if i > 0 && s[i - 1] == '\r' {
                crlf += 1;
            }
        }
        i += 1;
    }
    assert(s@.take(i as int) == text@);
    if crlf > all - crlf {
        "\r\n"
    } else {
        "\n"
    }
}

// ---------------------------------------------------------------------------
// Hex and identifiers
// ---------------------------------------------------------------------------

/// The hexadecimal digit of a value below sixteen.
pub open spec fn digit_of(n: int) -> char {
    if n < 10 {
        (48 + n) as char
    } else {
        (87 + n) as char
    }
}

/// The hexadecimal digit of a value below sixteen.
pub fn hex_digit(n: u8) -> (out: char)
    requires
        n < 16,
    ensures
        out == digit_of(n as int),
{
    if n < 10 {
        (48u8 + n) as char
    } else {
        (87u8 + n) as char
    }
}

/// Two lower-case digits for each byte, the high half first.
pub open spec fn hex_of(bytes: Seq<u8>) -> Seq<char> {
    Seq::new(
        2 * bytes.len(),
        |i: int|
            if i % 2 == 0 {
                digit_of(bytes[i / 2] as int / 16)
            } else {
                digit_of(bytes[i / 2] as int % 16)
            },
    )
}

/// Lower-case hexadecimal.
pub fn hex(bytes: &[u8]) -> (out: String)
    ensures
        out@ == hex_of(bytes@),
{
    let mut out = String::new();
    let mut i: usize = 0;
    while i < bytes.len()
        invariant
            i <= bytes.len(),
            out@ == hex_of(bytes@.take(i as int)),
        decreases bytes.len() - i,
    {
        let b: u8 = bytes[i];
        out.push(hex_digit(b / 16));
        out.push(hex_digit(b % 16));
        assert(out@ == hex_of(bytes@.take(i + 1)));
        i += 1;
    }
    assert(bytes@.take(i as int) == bytes@);
    out
}

/// A hexadecimal digit, in lower case.
pub open spec fn is_hex_digit(c: char) -> bool {
    '0' <= c <= '9' || 'a' <= c <= 'f'
}

/// The SHA-256 digest of some bytes.
pub uninterp spec fn sha256_of(bytes: Seq<u8>) -> Seq<u8>;

/// `sha2::Sha256`: `new`, `update` with all the bytes, `finalize`. The digest
/// has 32 bytes and depends on the bytes alone.
#[verifier::external_body]
fn sha256(bytes: &[u8]) -> (out: Vec<u8>)
    ensures
        out@ == sha256_of(bytes@),
        out@.len() == 32,
{
    let mut hasher = sha2::Sha256::new();
    hasher.update(bytes);
    hasher.finalize().to_vec()
}

/// Content address. Blobs are keyed by this and nothing else, which is what
/// makes "save twice with no change" free and makes two watchers harmless.
pub fn sha256_hex(bytes: &[u8]) -> (out: String)
    ensures
        out@ == hex_of(sha256_of(bytes@)),
        out@.len() == 64,
{
    hex(&sha256(bytes))
}

/// The content address of a text: that of its UTF-8 bytes.
pub open spec fn text_hash(text: Seq<char>) -> Seq<char> {
    hex_of(sha256_of(vstd::utf8::encode_utf8(text)))
}

/// The content address of a text.
pub fn hash_text(text: &str) -> (out: String)
    ensures
        out@ == text_hash(text@),
{
    sha256_hex(text.as_bytes())
}

/// `rand::random`: any value may come back.
#[verifier::external_body]
fn random_word() -> (out: u64) {
    rand::random::<u64>()
}

/// The value of `word` after dropping `n` hexadecimal digits at its end.
pub open spec fn drop_digits(word: int, n: nat) -> int
    decreases n,
{
    if n == 0 {
        word
    } else {
        drop_digits(word, (n - 1) as nat) / 16
    }
}

/// The first `nybbles` digits of the words, sixteen from each, lowest first.
pub open spec fn suffix_of(words: Seq<u64>, nybbles: nat) -> Seq<char> {
    Seq::new(
        nybbles,
        |i: int| digit_of(drop_digits(words[i / 16] as int, (i % 16) as nat) % 16),
    )
}

/// Turns random words into a suffix of `nybbles` hexadecimal digits.
pub fn suffix_from(words: &[u64], nybbles: usize) -> (out: String)
    requires
        nybbles <= 16 * words.len(),
    ensures
        out@ == suffix_of(words@, nybbles as nat),
{
    let mut out = String::new();
    let mut bits: u64 = 0;
    let mut i: usize = 0;
    while i < nybbles
        invariant
            i <= nybbles <= 16 * words.len(),
            out@ == suffix_of(words@, i as nat),
            i % 16 != 0 ==> bits == drop_digits(words@[i as int / 16] as int, (i % 16) as nat),
        decreases nybbles - i,
    {
        if i % 16 == 0 {
            bits = words[i / 16];
        }
        let ghost at = (i % 16) as nat;
        let ghost word = words@[i as int / 16] as int;
        assert(bits == drop_digits(word, at));
        out.push(hex_digit((bits % 16) as u8));
        bits = bits / 16;
        i += 1;
        assert(out@ == suffix_of(words@, i as nat));
        assert(bits == drop_digits(word, at + 1));
        assert(i % 16 != 0 ==> i % 16 == at + 1 && i as int / 16 == (i - 1) as int / 16);
    }
    out
}

/// A suffix holds hexadecimal digits only.
pub proof fn law_suffix_digits(words: Seq<u64>, nybbles: nat)
    ensures
        suffix_of(words, nybbles).len() == nybbles,
        forall|i: int| 0 <= i < nybbles ==> is_hex_digit(#[trigger] suffix_of(words, nybbles)[i]),
{
    assert forall|i: int| 0 <= i < nybbles implies is_hex_digit(
        #[trigger] suffix_of(words, nybbles)[i],
    ) by {
        let n = drop_digits(words[i / 16] as int, (i % 16) as nat) % 16;
        assert(0 <= n < 16);
    }
}

/// A short random suffix of hexadecimal digits.
pub fn random_suffix(nybbles: usize) -> (out: String)
    ensures
        out@.len() == nybbles,
        forall|i: int| 0 <= i < nybbles ==> is_hex_digit(#[trigger] out@[i]),
{
    let mut words: Vec<u64> = Vec::new();
    let wanted: usize = nybbles / 16 + 1;
    while words.len() < wanted
        invariant
            words.len() <= wanted,
        decreases wanted - words.len(),
    {
        words.push(random_word());
    }
    proof {
        law_suffix_digits(words@, nybbles as nat);
    }
    suffix_from(&words, nybbles)
}

// ---------------------------------------------------------------------------
// Time
// ---------------------------------------------------------------------------

/// The RFC 3339 text, in UTC and to the second, of a number of milliseconds
/// since the Unix epoch; nothing where no such date exists.
pub uninterp spec fn rfc3339_of(ms: i64) -> Option<Seq<char>>;

/// Is a text the RFC 3339 text of some time?
pub open spec fn is_date(text: Seq<char>) -> bool {
    exists|ms: i64| #[trigger] rfc3339_of(ms) == Some(text)
}

/// `chrono::Utc::now` and `timestamp_millis`: what the clock says. Which number
/// that is rests with the clock; it always names a date.
#[verifier::external_body]
fn clock_ms() -> (out: i64)
    ensures
        rfc3339_of(out) is Some,
{
    chrono::Utc::now().timestamp_millis()
}

/// `chrono::DateTime::from_timestamp_millis` and `to_rfc3339_opts` with whole
/// seconds and a `Z`. The text depends on the argument alone.
#[verifier::external_body]
fn date_text(ms: i64) -> (out: Option<String>)
    ensures
        match out {
            Some(text) => rfc3339_of(ms) == Some(text@),
            None => rfc3339_of(ms) is None,
        },
{
    chrono::DateTime::from_timestamp_millis(ms).map(
        |d| d.to_rfc3339_opts(chrono::SecondsFormat::Secs, true),
    )
}

/// `chrono::Utc::now` and `to_rfc3339_opts` with whole seconds and a `Z`. Which
/// date that is rests with the clock; it is written as that of some number of
/// milliseconds is.
#[verifier::external_body]
fn clock_text() -> (out: String)
    ensures
        is_date(out@),
{
    chrono::Utc::now().to_rfc3339_opts(chrono::SecondsFormat::Secs, true)
}

/// Milliseconds since the Unix epoch, as the clock has them. They name a date.
pub fn now_ms() -> (out: i64)
    ensures
        rfc3339_of(out) is Some,
{
    clock_ms()
}

/// The RFC 3339 text of a time; the present time's where `ms` names no date.
pub fn ms_to_rfc3339(ms: i64) -> (out: String)
    ensures
        rfc3339_of(ms) matches Some(text) ==> out@ == text,
        is_date(out@),
{
    match date_text(ms) {
        Some(text) => text,
        None => clock_text(),
    }
}

/// The RFC 3339 text of the present time.
pub fn now_rfc3339() -> (out: String)
    ensures
        is_date(out@),
{
    ms_to_rfc3339(now_ms())
}

/// The nearest number that an `i64` can hold.
pub open spec fn clamped(n: int) -> int {
    if n < i64::MIN {
        i64::MIN as int
    } else if n > i64::MAX {
        i64::MAX as int
    } else {
        n
    }
}

/// `a - b`, kept within what an `i64` can hold.
pub fn minus(a: i64, b: i64) -> (out: i64)
    ensures
        out == clamped(a - b),
{
    let d: i128 = a as i128 - b as i128;
    if d < i64::MIN as i128 {
        i64::MIN
    } else if d > i64::MAX as i128 {
        i64::MAX
    } else {
        d as i64
    }
}

/// The quotient of two numbers, rounded towards zero.
pub open spec fn quotient(a: int, b: int) -> int {
    if a >= 0 {
        a / b
    } else {
        -((-a) / b)
    }
}

/// The quotient of `a` by a positive number, rounded towards zero.
pub fn divide(a: i64, b: i64) -> (out: i64)
    requires
        b > 0,
    ensures
        out == quotient(a as int, b as int),
{
    if a >= 0 {
        let q: u64 = a as u64 / b as u64;
        assert(q as int <= a as int) by {
            vstd::arithmetic::div_mod::lemma_div_is_ordered_by_denominator(a as int, 1, b as int);
        }
        q as i64
    } else {
        let m: u128 = (-(a as i128)) as u128;
        let q: u128 = m / b as u128;
        assert(q as int <= m as int) by {
            vstd::arithmetic::div_mod::lemma_div_is_ordered_by_denominator(m as int, 1, b as int);
        }
        (-(q as i128)) as i64
    }
}

// ---------------------------------------------------------------------------
// Paths
// ---------------------------------------------------------------------------

/// One step of normalisation: `.` and empty names vanish, `..` takes back the
/// name before it and stays where there is none.
pub open spec fn step_of(names: Seq<Seq<char>>, next: Seq<char>) -> Seq<Seq<char>> {
    if next == ""@ || next == "."@ {
        names
    } else if next == ".."@ && names.len() > 0 {
        names.drop_last()
    } else {
        names.push(next)
    }
}

/// The names that remain of a path's pieces.
pub open spec fn names_of(pieces: Seq<Seq<char>>) -> Seq<Seq<char>>
    decreases pieces.len(),
{
    if pieces.len() == 0 {
        Seq::empty()
    } else {
        step_of(names_of(pieces.drop_last()), pieces.last())
    }
}

/// The path with the given names, from the root if `rooted`.
pub open spec fn path_of(rooted: bool, names: Seq<Seq<char>>) -> Seq<char> {
    if rooted {
        "/"@ + join_of(names, "/"@)
    } else {
        join_of(names, "/"@)
    }
}

/// The names that remain of a path.
fn normal_names(path: &str) -> (out: Vec<String>)
    ensures
        views(out@) == names_of(split_on(path@, '/')),
{
    let pieces = split(&chars_of(path), '/');
    let mut names: Vec<String> = Vec::new();
    let mut i: usize = 0;
    assert(views(names@) == Seq::<Seq<char>>::empty());
    assert(views(pieces@).take(0) == Seq::<Seq<char>>::empty());
    while i < pieces.len()
        invariant
            i <= pieces.len(),
            views(names@) == names_of(views(pieces@).take(i as int)),
        decreases pieces.len() - i,
    {
        let ghost before = views(names@);
        let next = pieces[i].as_str();
        assert(views(pieces@).take(i + 1).drop_last() == views(pieces@).take(i as int));
        if same_str(next, "") || same_str(next, ".") {
        } else if same_str(next, "..") && names.len() > 0 {
            let _ = names.pop();
            assert(views(names@) == before.drop_last());
        } else {
            names.push(next.to_owned());
            assert(views(names@) == before.push(next@));
        }
        i += 1;
    }
    assert(views(pieces@).take(i as int) == views(pieces@));
    names
}

/// A path without `.` and `..`, as far as its text alone shows.
pub open spec fn normal_of(path: Seq<char>) -> Seq<char> {
    path_of("/"@.is_prefix_of(path), names_of(split_on(path, '/')))
}

/// Normalises a path lexically: no `.`, and each `..` takes back the name
/// before it. Deliberately lexical: it must work for paths that do not exist
/// yet.
pub fn lexical_normalize(path: &str) -> (out: String)
    ensures
        out@ == normal_of(path@),
{
    let rooted = starts_with(&chars_of(path), "/");
    let body = join(&normal_names(path), "/");
    if rooted {
        let mut out = "/".to_owned();
        out.append(body.as_str());
        out
    } else {
        body
    }
}

/// A component that names a file or a directory.
pub open spec fn is_name(s: Seq<char>) -> bool {
    s != ""@ && s != "."@ && s != ".."@
}

/// How many components go down, less how many go up.
pub open spec fn depth(pieces: Seq<Seq<char>>) -> int
    decreases pieces.len(),
{
    if pieces.len() == 0 {
        0
    } else if pieces.last() == ".."@ {
        depth(pieces.drop_last()) - 1
    } else if is_name(pieces.last()) {
        depth(pieces.drop_last()) + 1
    } else {
        depth(pieces.drop_last())
    }
}

/// Does a path never go up further than it went down before?
pub open spec fn stays_below(pieces: Seq<Seq<char>>) -> bool {
    forall|k: int| 0 <= k <= pieces.len() ==> depth(#[trigger] pieces.take(k)) >= 0
}

proof fn lemma_names(pieces: Seq<Seq<char>>, k: int)
    requires
        stays_below(pieces),
        0 <= k <= pieces.len(),
    ensures
        names_of(pieces.take(k)).len() == depth(pieces.take(k)),
        forall|i: int|
            0 <= i < names_of(pieces.take(k)).len() ==> is_name(
                #[trigger] names_of(pieces.take(k))[i],
            ) && pieces.contains(names_of(pieces.take(k))[i]),
    decreases k,
{
    reveal_strlit("");
    reveal_strlit(".");
    reveal_strlit("..");
    assert("."@.len() == 1 && ".."@.len() == 2 && ""@.len() == 0);
    if k > 0 {
        lemma_names(pieces, k - 1);
        let t = pieces.take(k);
        assert(t.drop_last() =~= pieces.take(k - 1));
        assert(t.last() == pieces[k - 1]);
        assert(depth(pieces.take(k - 1)) >= 0 && depth(t) >= 0);
        let before = names_of(pieces.take(k - 1));
        let all = names_of(t);
        assert forall|i: int| 0 <= i < all.len() implies is_name(#[trigger] all[i])
            && pieces.contains(all[i]) by {
            if i < before.len() {
                assert(all[i] == before[i]);
            } else {
                assert(all[i] == pieces[k - 1]);
            }
        }
    }
}

/// Names joined and split again are the names.
proof fn lemma_split_names(names: Seq<Seq<char>>)
    requires
        names.len() > 0,
        forall|i: int| 0 <= i < names.len() ==> !holds(#[trigger] names[i], '/'),
    ensures
        split_on(join_of(names, "/"@), '/') == names,
    decreases names.len(),
{
    reveal_strlit("/");
    let head = names[0];
    let rest = names.skip(1);
    assert(!holds(head, '/'));
    assert(names =~= seq![head] + rest);
    let n = head.len() as int;
    if rest.len() == 0 {
        assert(seq![head] + rest =~= seq![head]);
        crate::text::lemma_index_unique(head, '/', n);
    } else {
        crate::text::lemma_join_concat(seq![head], rest, "/"@);
        let s = join_of(names, "/"@);
        assert(s =~= head + "/"@ + join_of(rest, "/"@));
        assert(s[n] == '/');
        assert forall|k: int| 0 <= k < n implies s[k] != '/' by {
            assert(s[k] == head[k]);
        }
        crate::text::lemma_index_unique(s, '/', n);
        assert(s.take(n) =~= head);
        assert(s.skip(n + 1) =~= join_of(rest, "/"@));
        assert forall|i: int| 0 <= i < rest.len() implies !holds(#[trigger] rest[i], '/') by {
            assert(rest[i] == names[i + 1]);
        }
        lemma_split_names(rest);
    }
}

/// The pieces between separators hold none.
pub proof fn lemma_pieces_apart(s: Seq<char>, c: char)
    ensures
        forall|i: int| 0 <= i < split_on(s, c).len() ==> !holds(#[trigger] split_on(s, c)[i], c),
    decreases s.len(),
{
    crate::text::lemma_index_of(s, c);
    let i = crate::text::index_of(s, c);
    if i < s.len() {
        let rest = s.skip(i + 1);
        lemma_pieces_apart(rest, c);
        let all = split_on(s, c);
        assert forall|k: int| 0 <= k < all.len() implies !holds(#[trigger] all[k], c) by {
            if k > 0 {
                assert(all[k] == split_on(rest, c)[k - 1]);
            }
        }
    }
}

/// Names are kept as they are.
proof fn lemma_names_kept(names: Seq<Seq<char>>)
    requires
        forall|i: int| 0 <= i < names.len() ==> is_name(#[trigger] names[i]),
    ensures
        names_of(names) == names,
        names_of(seq![""@] + names) == names,
    decreases names.len(),
{
    reveal_with_fuel(names_of, 2);
    if names.len() == 0 {
        assert(names_of(names) =~= names);
        let one = seq![""@] + names;
        assert(one.drop_last() =~= Seq::<Seq<char>>::empty());
        assert(one.last() == ""@);
        assert(names_of(one) =~= names);
    } else {
        let d = names.drop_last();
        assert forall|i: int| 0 <= i < d.len() implies is_name(#[trigger] d[i]) by {
            assert(d[i] == names[i]);
        }
        lemma_names_kept(d);
        assert(is_name(names[names.len() - 1]));
        assert((seq![""@] + names).drop_last() =~= seq![""@] + d);
        assert((seq![""@] + names).last() == names.last());
        assert(d.push(names.last()) =~= names);
    }
}

/// A normalised path has no `.` and no `..`, and normalising it again changes
/// nothing. Left out are paths that go up further than they went down before: a
/// `..` with nothing in front of it is kept, and the next one takes it away.
pub proof fn law_normal_path(path: Seq<char>)
    requires
        stays_below(split_on(path, '/')),
    ensures
        normal_of(normal_of(path)) == normal_of(path),
        forall|i: int|
            0 <= i < split_on(normal_of(path), '/').len() ==> (#[trigger] split_on(
                normal_of(path),
                '/',
            )[i]) != "."@ && split_on(normal_of(path), '/')[i] != ".."@,
{
    reveal_strlit("/");
    reveal_strlit("");
    reveal_strlit(".");
    reveal_strlit("..");
    let pieces = split_on(path, '/');
    let names = names_of(pieces);
    let n = pieces.len() as int;
    assert(pieces.take(n) =~= pieces);
    lemma_names(pieces, n);
    lemma_pieces_apart(path, '/');
    assert forall|i: int| 0 <= i < names.len() implies !holds(#[trigger] names[i], '/') by {
        let k = choose|k: int| 0 <= k < pieces.len() && pieces[k] == names[i];
        assert(!holds(pieces[k], '/'));
    }
    lemma_names_kept(names);
    let rooted = "/"@.is_prefix_of(path);
    let body = join_of(names, "/"@);
    let r = normal_of(path);
    let again = split_on(r, '/');
    assert("."@.len() == 1 && ".."@.len() == 2 && ""@.len() == 0);
    let empty = Seq::<char>::empty();
    assert(""@ =~= empty);
    if names.len() > 0 {
        lemma_split_names(names);
    } else {
        crate::text::lemma_index_unique(empty, '/', 0);
        assert(body =~= empty);
        assert(split_on(body, '/') =~= seq![""@]);
    }
    if rooted {
        assert(r =~= "/"@ + body);
        assert(r[0] == '/');
        crate::text::lemma_index_unique(r, '/', 0);
        assert(r.take(0) =~= ""@);
        assert(r.skip(1) =~= body);
        assert(again == seq![""@] + split_on(body, '/'));
        assert("/"@ =~= r.subrange(0, 1));
        if names.len() == 0 {
            reveal_with_fuel(names_of, 3);
            assert(again =~= seq![""@, ""@]);
            assert(again.drop_last() =~= seq![""@]);
            assert(seq![""@].drop_last() =~= Seq::<Seq<char>>::empty());
            assert(names_of(again) =~= names);
        }
    } else if names.len() > 0 {
        let first = names[0];
        assert(is_name(first) && !holds(first, '/'));
        assert(first.len() > 0) by {
            if first.len() == 0 {
                assert(first =~= ""@);
            }
        }
        lemma_join_first(names);
        assert(r[0] == first[0]);
        if "/"@.is_prefix_of(r) {
            assert("/"@[0] == r.subrange(0, 1)[0]);
            assert(first[0] == '/');
        }
    } else {
        reveal_with_fuel(names_of, 2);
        assert(again =~= seq![""@]);
        assert(again.drop_last() =~= Seq::<Seq<char>>::empty());
        assert(names_of(again) =~= names);
    }
    assert forall|i: int| 0 <= i < again.len() implies (#[trigger] again[i]) != "."@ && again[i]
        != ".."@ by {
        if names.len() > 0 {
            if rooted && i > 0 {
                assert(again[i] == names[i - 1]);
                assert(is_name(names[i - 1]));
            } else if !rooted {
                assert(is_name(names[i]));
            }
        }
    }
}

proof fn lemma_join_first(names: Seq<Seq<char>>)
    requires
        names.len() > 0,
        names[0].len() > 0,
    ensures
        join_of(names, "/"@).len() > 0,
        join_of(names, "/"@)[0] == names[0][0],
{
    let rest = names.skip(1);
    assert(names =~= seq![names[0]] + rest);
    crate::text::lemma_join_concat(seq![names[0]], rest, "/"@);
    if rest.len() == 0 {
        assert(seq![names[0]] + rest =~= seq![names[0]]);
    }
}

/// Do two paths name the same place? With `any_case` the file system takes an
/// ASCII letter's two cases for one.
pub open spec fn same_path(a: Seq<char>, b: Seq<char>, any_case: bool) -> bool {
    if any_case {
        same_ignoring_case(a, b)
    } else {
        a == b
    }
}

/// Do two paths name the same place?
pub fn path_eq(a: &str, b: &str, any_case: bool) -> (out: bool)
    ensures
        out == same_path(a@, b@, any_case),
{
    if any_case {
        equal_ignoring_case(a, b)
    } else {
        same_str(a, b)
    }
}

/// A text with its ASCII letters in lower case.
pub open spec fn ascii_folded(s: Seq<char>) -> Seq<char> {
    s.map_values(|c: char| ascii_lower_of(c))
}

/// The key under which a path is looked up: the path itself, or its lower-case
/// form where the file system takes a letter's cases for one. ASCII letters
/// come first, so that paths which are the same in any case have one key.
pub open spec fn folded(path: Seq<char>, any_case: bool) -> Seq<char> {
    if any_case {
        lower_of(ascii_folded(path))
    } else {
        path
    }
}

/// The key under which a path is looked up.
pub fn fold(key: &str, any_case: bool) -> (out: String)
    ensures
        out@ == folded(key@, any_case),
        any_case && ascii(key@) ==> out@ == ascii_folded(key@),
{
    if any_case {
        let chars = chars_of(key);
        let mut plain: Vec<char> = Vec::new();
        let mut i: usize = 0;
        while i < chars.len()
            invariant
                i <= chars@.len(),
                chars@ == key@,
                plain@ == ascii_folded(key@).take(i as int),
            decreases chars@.len() - i,
        {
            plain.push(ascii_lower(chars[i]));
            assert(ascii_folded(key@).take(i + 1) =~= ascii_folded(key@).take(i as int).push(
                ascii_folded(key@)[i as int],
            ));
            i += 1;
        }
        assert(plain@ =~= ascii_folded(key@));
        let text = string_of(&plain);
        let out = lowercase(text.as_str());
        proof {
            if ascii(key@) {
                assert forall|k: int| 0 <= k < text@.len() implies (#[trigger] text@[k]) as u32
                    <= 0x7f by {
                    assert(key@[k] as u32 <= 0x7f);
                }
                assert(ascii_folded(text@) =~= text@);
            }
        }
        out
    } else {
        key.to_owned()
    }
}

/// Is a text ASCII?
pub open spec fn ascii(s: Seq<char>) -> bool {
    forall|i: int| 0 <= i < s.len() ==> (#[trigger] s[i]) as u32 <= 0x7f
}

/// Are two paths looked up under the same key?
pub open spec fn same_key(a: Seq<char>, b: Seq<char>, any_case: bool) -> bool {
    folded(a, any_case) == folded(b, any_case)
}

/// Are two paths looked up under the same key?
pub fn key_eq(a: &str, b: &str, any_case: bool) -> (out: bool)
    ensures
        out == same_key(a@, b@, any_case),
{
    if any_case {
        same_str(fold(a, any_case).as_str(), fold(b, any_case).as_str())
    } else {
        same_str(a, b)
    }
}

/// The keys under which paths are looked up.
pub open spec fn keys_of(paths: Seq<Seq<char>>, any_case: bool) -> Seq<Seq<char>> {
    Seq::new(paths.len(), |i: int| folded(paths[i], any_case))
}

/// The keys under which paths are looked up.
pub fn fold_all(paths: &[String], any_case: bool) -> (out: Vec<String>)
    ensures
        views(out@) == keys_of(views(paths@), any_case),
{
    let ghost goal = keys_of(views(paths@), any_case);
    let mut out: Vec<String> = Vec::new();
    let mut i: usize = 0;
    while i < paths.len()
        invariant
            i <= paths@.len(),
            goal == keys_of(views(paths@), any_case),
            views(out@) == goal.take(i as int),
        decreases paths@.len() - i,
    {
        push_text(&mut out, fold(paths[i].as_str(), any_case));
        assert(goal.take(i + 1) =~= goal.take(i as int).push(goal[i as int]));
        i += 1;
    }
    assert(goal.take(i as int) =~= goal);
    out
}

/// Paths that name the same place are looked up under the same key, and where
/// case counts a path is its own key.
pub proof fn law_same_path_same_key(a: Seq<char>, b: Seq<char>, any_case: bool)
    ensures
        same_path(a, b, any_case) ==> folded(a, any_case) == folded(b, any_case),
        folded(a, false) == a,
{
    if any_case && same_ignoring_case(a, b) {
        assert(ascii_folded(a) =~= ascii_folded(b));
    }
}

/// A directory key with exactly one separator behind it.
pub open spec fn with_slash(root: Seq<char>) -> Seq<char> {
    if "/"@.is_suffix_of(root) {
        root
    } else {
        root + "/"@
    }
}

/// Does `path` lie inside `root`, or equal it?
pub open spec fn under(root: Seq<char>, path: Seq<char>, any_case: bool) -> bool {
    same_path(root, path, any_case) || (path.len() > with_slash(root).len() && same_path(
        path.take(with_slash(root).len() as int),
        with_slash(root),
        any_case,
    ))
}

/// Is `path` inside `root` (or equal to it)? Both must already be canonical keys.
pub fn is_under(root: &str, path: &str, any_case: bool) -> (out: bool)
    ensures
        out == under(root@, path@, any_case),
{
    if path_eq(root, path, any_case) {
        return true;
    }
    let root_chars = chars_of(root);
    let mut slashed = root.to_owned();
    if !crate::text::ends_with(&root_chars, "/") {
        slashed.append("/");
    }
    let path_chars = chars_of(path);
    let n: usize = chars_of(slashed.as_str()).len();
    if path_chars.len() > n {
        let front = string_of(part(&path_chars, 0, n));
        assert(path_chars@.subrange(0, n as int) =~= path@.take(n as int));
        path_eq(front.as_str(), slashed.as_str(), any_case)
    } else {
        false
    }
}

/// Containment goes by whole names: what follows the root inside a path it
/// holds starts behind a separator.
pub proof fn law_under_component_boundary(root: Seq<char>, path: Seq<char>, any_case: bool)
    requires
        under(root, path, any_case),
        !same_path(root, path, any_case),
    ensures
        root.len() < path.len(),
        same_path(path.take(root.len() as int), root, any_case),
        path[root.len() as int] == '/' || "/"@.is_suffix_of(root),
{
    reveal_strlit("/");
    let slashed = with_slash(root);
    let front = path.take(slashed.len() as int);
    let n = root.len() as int;
    assert(path.take(n) =~= front.take(n));
    assert(slashed.take(n) =~= root);
    if any_case {
        assert forall|i: int| 0 <= i < n implies ascii_lower_of(#[trigger] path.take(n)[i])
            == ascii_lower_of(root[i]) by {
            assert(front[i] == path.take(n)[i]);
            assert(slashed[i] == root[i]);
        }
    }
    if !"/"@.is_suffix_of(root) {
        assert(slashed[n] == '/');
        assert(front[n] == path[n]);
        if any_case {
            assert(ascii_lower_of(front[n]) == ascii_lower_of(slashed[n]));
        }
    }
}

/// Containment is reflexive, and carries over from a directory to what lies
/// inside its inner directories.
pub proof fn law_under_transitive(a: Seq<char>, b: Seq<char>, c: Seq<char>, any_case: bool)
    requires
        under(a, b, any_case),
        under(b, c, any_case),
    ensures
        under(a, a, any_case),
        under(a, c, any_case),
{
    reveal_strlit("/");
    let sa = with_slash(a);
    let sb = with_slash(b);
    // In lower case, containment is what it is where case counts.
    let low = |s: Seq<char>| if any_case { ascii_folded(s) } else { s };
    lemma_under_folded(a, b, any_case);
    lemma_under_folded(b, c, any_case);
    lemma_under_folded(a, c, any_case);
    lemma_under_folded(a, a, any_case);
    let (x, y, z) = (low(a), low(b), low(c));
    if x != y && y != z {
        let sx = with_slash(x);
        let sy = with_slash(y);
        assert(y == sy.take(y.len() as int)) by {
            assert(sy.take(y.len() as int) =~= y);
        }
        assert(z.take(sx.len() as int) =~= z.take(sy.len() as int).take(sx.len() as int));
        assert(sy.take(sx.len() as int) =~= y.take(sx.len() as int));
    }
}

/// Containment without regard to case is containment of the lower-case forms.
proof fn lemma_under_folded(root: Seq<char>, path: Seq<char>, any_case: bool)
    ensures
        ({
            let x = if any_case {
                ascii_folded(root)
            } else {
                root
            };
            let y = if any_case {
                ascii_folded(path)
            } else {
                path
            };
            under(root, path, any_case) == (x == y || (y.len() > with_slash(x).len() && y.take(
                with_slash(x).len() as int,
            ) == with_slash(x)))
        }),
{
    reveal_strlit("/");
    if any_case {
        let x = ascii_folded(root);
        let y = ascii_folded(path);
        lemma_folded_same(root, path);
        lemma_ends_in_slash(root);
        lemma_ends_in_slash(x);
        if root.len() > 0 {
            assert(x.last() == ascii_lower_of(root.last()));
        }
        let sr = with_slash(root);
        let sx = with_slash(x);
        assert(ascii_folded(sr) =~= sx);
        if path.len() > sr.len() {
            let front = path.take(sr.len() as int);
            lemma_folded_same(front, sr);
            assert(ascii_folded(front) =~= y.take(sr.len() as int));
        }
    }
}

proof fn lemma_ends_in_slash(s: Seq<char>)
    ensures
        "/"@.is_suffix_of(s) == (s.len() > 0 && s.last() == '/'),
{
    reveal_strlit("/");
    assert("/"@ =~= seq!['/']);
    if s.len() > 0 {
        let end = s.subrange(s.len() - 1, s.len() as int);
        assert(end[0] == s.last());
        if s.last() == '/' {
            assert(end =~= "/"@);
        }
    }
}

/// Texts are the same but for the case of ASCII letters exactly when their
/// lower-case forms are.
proof fn lemma_folded_same(a: Seq<char>, b: Seq<char>)
    ensures
        same_ignoring_case(a, b) == (ascii_folded(a) == ascii_folded(b)),
{
    let x = ascii_folded(a);
    let y = ascii_folded(b);
    if same_ignoring_case(a, b) {
        assert(x =~= y);
    }
    if x == y {
        assert(a.len() == x.len() && b.len() == y.len());
        assert forall|i: int| 0 <= i < a.len() implies ascii_lower_of(#[trigger] a[i])
            == ascii_lower_of(b[i]) by {
            assert(x[i] == y[i]);
        }
    }
}

/// The system that documents live on.
#[derive(Debug)]
pub struct Host {
    /// Canonical key of the home directory, where there is one.
    pub home: Option<String>,
    /// Do paths start with a drive, and mean the same in either case, as on
    /// Windows?
    pub drives: bool,
}

/// What a system is.
#[verifier::ext_equal]
pub struct HostModel {
    pub home: Option<Seq<char>>,
    pub drives: bool,
}

impl View for Host {
    type V = HostModel;

    open spec fn view(&self) -> HostModel {
        HostModel { home: opt_view(self.home), drives: self.drives }
    }
}

impl Host {
    pub fn new(home: Option<&str>, drives: bool) -> (out: Host)
        ensures
            out@ == (HostModel { home: opt_str_view(home), drives }),
    {
        Host { home: own(home), drives }
    }

    /// The home directory's key.
    pub fn home(&self) -> (out: Option<&str>)
        ensures
            opt_str_view(out) == self@.home,
    {
        match &self.home {
            Some(h) => Some(h.as_str()),
            None => None,
        }
    }
}

/// A key as shown: `~` stands for the home directory it lies in.
pub open spec fn display_of(key: Seq<char>, host: HostModel) -> Seq<char> {
    match host.home {
        Some(h) => if under(h, key, host.drives) && key.len() > h.len() {
            "~"@ + key.skip(h.len() as int)
        } else {
            key
        },
        None => key,
    }
}

/// `~/foo` for display.
pub fn display_path(key: &str, host: &Host) -> (out: String)
    ensures
        out@ == display_of(key@, host@),
{
    if let Some(h) = host.home() {
        let k = chars_of(key);
        let n: usize = chars_of(h).len();
        if is_under(h, key, host.drives) && k.len() > n {
            let mut out = "~".to_owned();
            let rest = string_of(part(&k, n, k.len()));
            assert(k@.subrange(n as int, k@.len() as int) == key@.skip(n as int));
            out.append(rest.as_str());
            return out;
        }
    }
    key.to_owned()
}

/// A path with a relative part put behind it; an absolute part replaces it.
pub open spec fn joined_path(base: Seq<char>, rest: Seq<char>) -> Seq<char> {
    if "/"@.is_prefix_of(rest) {
        rest
    } else if base.len() == 0 || "/"@.is_suffix_of(base) {
        base + rest
    } else {
        base + "/"@ + rest
    }
}

/// Puts `rest` behind `base`, or in its place where it is absolute.
pub fn path_join(base: &str, rest: &str) -> (out: String)
    ensures
        out@ == joined_path(base@, rest@),
{
    let b = chars_of(base);
    if starts_with(&chars_of(rest), "/") {
        return rest.to_owned();
    }
    let mut out = base.to_owned();
    if b.len() > 0 && !crate::text::ends_with(&b, "/") {
        out.append("/");
    }
    out.append(rest);
    out
}

/// The path that an input with a leading `~` means.
pub open spec fn tilde_of(input: Seq<char>, home: Option<Seq<char>>) -> Seq<char> {
    match home {
        Some(h) => if "~/"@.is_prefix_of(input) || "~\\"@.is_prefix_of(input) {
            joined_path(h, input.skip(2))
        } else if input == "~"@ {
            h
        } else {
            input
        },
        None => input,
    }
}

/// Expands a leading `~` so users and agents can pass the paths they actually
/// think in. `home` is the home directory, where there is one.
pub fn expand_tilde(input: &str, home: Option<&str>) -> (out: String)
    ensures
        out@ == tilde_of(input@, match home {
            Some(h) => Some(h@),
            None => None,
        }),
{
    if let Some(h) = home {
        let chars = chars_of(input);
        if starts_with(&chars, "~/") || starts_with(&chars, "~\\") {
            proof {
                reveal_strlit("~/");
                reveal_strlit("~\\");
            }
            let rest = string_of(part(&chars, 2, chars.len()));
            assert(chars@.subrange(2, chars@.len() as int) == input@.skip(2));
            return path_join(h, rest.as_str());
        }
        if same_str(input, "~") {
            return h.to_owned();
        }
    }
    input.to_owned()
}

// ---------------------------------------------------------------------------
// Canonical keys
// ---------------------------------------------------------------------------

/// A path with every backslash turned into a separator.
pub open spec fn slashed(s: Seq<char>) -> Seq<char> {
    s.map_values(
        |c: char|
            if c == '\\' {
                '/'
            } else {
                c
            },
    )
}

/// The key that a resolved path is kept under: one string everywhere, in the
/// store, on the wire and in the UI.
pub open spec fn key_of(resolved: Seq<char>) -> Seq<char> {
    if "\\\\?\\"@.is_prefix_of(resolved) {
        slashed(resolved.skip(4))
    } else {
        slashed(resolved)
    }
}

/// The key that a resolved path is kept under: without the verbatim prefix,
/// which is correct but is not what a user or an agent ever types, and with
/// `/` for separators.
pub fn key_from(resolved: &str) -> (out: String)
    ensures
        out@ == key_of(resolved@),
{
    let all = chars_of(resolved);
    let mut i: usize = 0;
    if starts_with(&all, "\\\\?\\") {
        proof {
            reveal_strlit("\\\\?\\");
        }
        i = 4;
    }
    let ghost body = all@.skip(i as int);
    let ghost goal = slashed(body);
    let ghost from = i as int;
    let mut out = String::new();
    assert(goal.take(0) =~= out@);
    assert(i == 0 ==> body =~= resolved@);
    while i < all.len()
        invariant
            0 <= from <= i <= all@.len(),
            body == all@.skip(from),
            goal == slashed(body),
            out@ == goal.take(i - from),
        decreases all@.len() - i,
    {
        let c: char = all[i];
        out.push(if c == '\\' {
            '/'
        } else {
            c
        });
        assert(goal.take(i + 1 - from) =~= goal.take(i - from).push(goal[i - from]));
        i += 1;
    }
    assert(goal.take(i - from) =~= goal);
    out
}

/// A part of a path to look up, and what stands behind it.
#[derive(Debug)]
pub struct Ancestor {
    pub prefix: String,
    pub tail: Vec<String>,
}

/// The path that a key stands for: with a backslash for every slash where that
/// is how the system separates names.
pub open spec fn fs_path_of(key: Seq<char>, backslashes: bool) -> Seq<char> {
    if backslashes {
        key.map_values(
            |c: char|
                if c == '/' {
                    '\\'
                } else {
                    c
                },
        )
    } else {
        key
    }
}

/// The path that a key stands for on this system.
pub fn to_fs_path(key: &str, backslashes: bool) -> (out: String)
    ensures
        out@ == fs_path_of(key@, backslashes),
{
    if !backslashes {
        return key.to_owned();
    }
    let chars = chars_of(key);
    let ghost want = fs_path_of(key@, true);
    let mut out: Vec<char> = Vec::new();
    let mut i: usize = 0;
    while i < chars.len()
        invariant
            i <= chars@.len(),
            chars@ == key@,
            want == fs_path_of(key@, true),
            out@ == want.take(i as int),
        decreases chars@.len() - i,
    {
        let ghost before = out@;
        if chars[i] == '/' {
            out.push('\\');
        } else {
            out.push(chars[i]);
        }
        assert(out@ =~= before.push(want[i as int]));
        assert(want.take(i + 1) =~= want.take(i as int).push(want[i as int]));
        i += 1;
    }
    assert(want.take(i as int) =~= want);
    string_of(&out)
}

/// Does a path end in a name that can be taken off?
pub open spec fn can_rise(names: Seq<Seq<char>>) -> bool {
    names.len() > 0 && names.last() != ".."@
}

/// How many names can be taken off the end of a path, one after another.
pub open spec fn rises(names: Seq<Seq<char>>) -> nat
    decreases names.len(),
{
    if can_rise(names) {
        1 + rises(names.drop_last())
    } else {
        0
    }
}

/// Are these the path and its ancestors, each with the names behind it?
pub open spec fn are_ancestors(a: Seq<Ancestor>, rooted: bool, names: Seq<Seq<char>>) -> bool {
    &&& a.len() == rises(names) + 1
    &&& forall|k: int|
        0 <= k < a.len() ==> (#[trigger] a[k]).prefix@ == path_of(
            rooted,
            names.take(names.len() - k),
        ) && views(a[k].tail@) == names.skip(names.len() - k)
}

/// The places at which to look for a path that may not exist yet: the path as
/// normalised, then its ancestors, deepest first. The first one that exists
/// has its links resolved, and the names behind it are put back.
pub fn ancestors(path: &str) -> (out: Vec<Ancestor>)
    ensures
        are_ancestors(
            out@,
            "/"@.is_prefix_of(path@),
            names_of(split_on(path@, '/')),
        ),
{
    let chars = chars_of(path);
    let rooted = starts_with(&chars, "/");
    let names = normal_names(path);
    let ghost all = views(names@);
    let mut out: Vec<Ancestor> = Vec::new();
    let mut n: usize = names.len();
    assert(all.take(n as int) =~= all);
    let mut go = true;
    while go
        invariant
            n <= names@.len(),
            all == views(names@),
            go ==> out@.len() == names@.len() - n,
            go ==> rises(all) == out@.len() + rises(all.take(n as int)),
            !go ==> out@.len() == rises(all) + 1,
            rooted == "/"@.is_prefix_of(path@),
            forall|k: int|
                0 <= k < out@.len() ==> (#[trigger] out@[k]).prefix@ == path_of(
                    rooted,
                    all.take(all.len() - k),
                ) && views(out@[k].tail@) == all.skip(all.len() - k),
        decreases n + (if go {
            1int
        } else {
            0int
        }),
    {
        let front = copy_range(&names, 0, n);
        let tail = copy_range(&names, n, names.len());
        assert(all.subrange(0, n as int) =~= all.take(n as int));
        assert(all.subrange(n as int, all.len() as int) =~= all.skip(n as int));
        let body = join(&front, "/");
        let prefix = if rooted {
            let mut p = "/".to_owned();
            p.append(body.as_str());
            p
        } else {
            body
        };
        out.push(Ancestor { prefix: prefix, tail: tail });
        let ghost now = all.take(n as int);
        if n > 0 && !same_str(names[n - 1].as_str(), "..") {
            assert(now.last() == all[n - 1]);
            assert(now.drop_last() =~= all.take(n - 1));
            n -= 1;
        } else {
            assert(n > 0 ==> now.last() == all[n - 1]);
            go = false;
        }
    }
    out
}

fn copy_range(parts: &[String], from: usize, to: usize) -> (out: Vec<String>)
    requires
        from <= to <= parts@.len(),
    ensures
        views(out@) == views(parts@).subrange(from as int, to as int),
{
    let mut out: Vec<String> = Vec::new();
    let mut i: usize = from;
    let ghost all = views(parts@);
    assert(views(out@) =~= all.subrange(from as int, from as int));
    while i < to
        invariant
            from <= i <= to <= parts@.len(),
            all == views(parts@),
            views(out@) == all.subrange(from as int, i as int),
        decreases to - i,
    {
        crate::text::push_text(&mut out, parts[i].clone());
        assert(all.subrange(from as int, i + 1) =~= all.subrange(from as int, i as int).push(
            all[i as int],
        ));
        i += 1;
    }
    out
}

/// The key of a path, given the first of its ancestors that exists, with links
/// resolved, and the names behind it.
pub open spec fn canonical_of(
    path: Seq<char>,
    there: Option<(Seq<char>, Seq<Seq<char>>)>,
) -> Seq<char> {
    match there {
        Some((found, tail)) => if tail.len() == 0 {
            key_of(found)
        } else {
            key_of(joined_path(found, join_of(tail, "/"@)))
        },
        None => key_of(path_of("/"@.is_prefix_of(path), names_of(split_on(path, '/')))),
    }
}

/// Canonicalises for storage: the first of the path's ancestors that exists,
/// with links resolved, and the names behind it put back; or, where none
/// exists, the path as normalised.
pub fn canonical_key(path: &str, there: Option<(&str, &[String])>) -> (out: String)
    ensures
        out@ == canonical_of(
            path@,
            match there {
                Some((found, tail)) => Some((found@, views(tail@))),
                None => None,
            },
        ),
{
    match there {
        Some((found, tail)) => {
            assert(views(tail@).len() == tail@.len());
            if tail.len() == 0 {
                return key_from(found);
            }
            let rest = join(tail, "/");
            let joined = path_join(found, rest.as_str());
            key_from(joined.as_str())
        },
        None => {
            let normal = lexical_normalize(path);
            key_from(normal.as_str())
        },
    }
}

/// A path below the home directory is shown with a `~`, and what is shown means
/// the path again.
pub proof fn law_tilde_round_trip(home: Seq<char>, rest: Seq<char>, drives: bool)
    requires
        home.len() > 0,
        !"/"@.is_suffix_of(home),
        rest.len() > 0,
        rest[0] != '/',
    ensures
        ({
            let key = home + "/"@ + rest;
            let shown = display_of(key, HostModel { home: Some(home), drives });
            shown == "~/"@ + rest && tilde_of(shown, Some(home)) == key
        }),
{
    reveal_strlit("/");
    reveal_strlit("~");
    reveal_strlit("~/");
    let key = home + "/"@ + rest;
    let n = home.len() as int;
    assert(key.take(n + 1) =~= home + "/"@);
    assert(key.skip(n) =~= "/"@ + rest);
    let shown = display_of(key, HostModel { home: Some(home), drives });
    assert(shown =~= "~/"@ + rest);
    assert(shown.subrange(0, 2) =~= "~/"@);
    assert(shown.skip(2) =~= rest);
    if "/"@.is_prefix_of(rest) {
        assert(rest.subrange(0, 1)[0] == "/"@[0]);
    }
}

proof fn lemma_counts_concat(a: Seq<char>, b: Seq<char>)
    ensures
        newline_count(a + b) == newline_count(a) + newline_count(b),
        (a.len() > 0 && b.len() > 0 ==> !(a.last() == '\r' && b[0] == '\n')) ==> crlf_count(a + b)
            == crlf_count(a) + crlf_count(b),
    decreases b.len(),
{
    let s = a + b;
    if b.len() == 0 {
        assert(s =~= a);
    } else {
        let d = b.drop_last();
        assert(s.drop_last() =~= a + d);
        lemma_counts_concat(a, d);
        if b.len() >= 2 {
            assert(s[s.len() - 2] == b[b.len() - 2]);
            assert(d[0] == b[0]);
        } else if a.len() > 0 {
            assert(s[s.len() - 2] == a.last());
            assert(s.last() == b[0]);
        }
    }
}

proof fn lemma_counts_line(line: Seq<char>)
    requires
        one_line(line),
    ensures
        newline_count(line) == 0,
        crlf_count(line) == 0,
    decreases line.len(),
{
    if line.len() > 0 {
        let d = line.drop_last();
        assert forall|k: int| 0 <= k < d.len() implies d[k] != '\n' && d[k] != '\r' by {
            assert(d[k] == line[k]);
        }
        lemma_counts_line(d);
        assert(line[line.len() - 1] != '\n');
    }
}

proof fn lemma_counts_newline(newline: Seq<char>)
    requires
        newline == seq!['\n'] || newline == seq!['\r', '\n'],
    ensures
        newline_count(newline) == 1,
        crlf_count(newline) == newline.len() - 1,
{
    reveal_with_fuel(newline_count, 3);
    reveal_with_fuel(crlf_count, 3);
    let d = newline.drop_last();
    if newline.len() == 1 {
        assert(d =~= Seq::<char>::empty());
    } else {
        assert(d =~= seq!['\r']);
        assert(d.last() == '\r');
        assert(d.drop_last() =~= Seq::<char>::empty());
    }
}

proof fn lemma_counts_join(lines: Seq<Seq<char>>, newline: Seq<char>)
    requires
        all_one_line(lines),
        newline == seq!['\n'] || newline == seq!['\r', '\n'],
    ensures
        ({
            let text = join_of(lines, newline);
            let n = if lines.len() == 0 {
                0int
            } else {
                lines.len() - 1
            };
            &&& newline_count(text) == n
            &&& crlf_count(text) == n * (newline.len() - 1)
            &&& text.len() > 0 ==> text.last() != '\r'
        }),
    decreases lines.len(),
{
    let text = join_of(lines, newline);
    if lines.len() == 1 {
        assert(one_line(lines[0]));
        lemma_counts_line(lines[0]);
        assert(text =~= lines[0]);
    } else if lines.len() > 1 {
        let d = lines.drop_last();
        let last = lines[lines.len() - 1];
        assert(one_line(last));
        assert forall|i: int| 0 <= i < d.len() implies one_line(#[trigger] d[i]) by {
            assert(d[i] == lines[i]);
        }
        lemma_counts_join(d, newline);
        lemma_counts_line(last);
        lemma_counts_newline(newline);
        crate::text::lemma_join_concat(d, seq![last], newline);
        assert(d + seq![last] =~= lines);
        let a = join_of(d, newline);
        assert(join_of(seq![last], newline) =~= last);
        lemma_counts_concat(a, newline);
        lemma_counts_concat(a + newline, last);
        assert(text =~= a + newline + last);
        assert((a + newline).last() == '\n');
        let k = newline.len() - 1;
        assert((d.len() - 1) * k + k == (lines.len() - 1) * k) by (nonlinear_arith)
            requires
                d.len() == lines.len() - 1,
        ;
        if last.len() > 0 {
            assert(text.last() == last.last());
            assert(last[last.len() - 1] != '\r');
        } else {
            assert(text =~= a + newline);
        }
    }
}

/// A document keeps its newline: written with one it is found to use that one,
/// as soon as it has a line that ends.
pub proof fn law_newline_is_kept(lines: Seq<Seq<char>>, trailing: bool, newline: Seq<char>)
    requires
        all_one_line(lines),
        newline == "\n"@ || newline == "\r\n"@,
        lines.len() > 1 || trailing,
    ensures
        newline_of(document_of(lines, trailing, newline)) == newline,
{
    reveal_strlit("\n");
    reveal_strlit("\r\n");
    assert("\n"@ =~= seq!['\n']);
    assert("\r\n"@ =~= seq!['\r', '\n']);
    lemma_counts_join(lines, newline);
    lemma_counts_newline(newline);
    let text = join_of(lines, newline);
    lemma_counts_concat(text, newline);
    let k = newline.len() - 1;
    let n = if lines.len() == 0 {
        0int
    } else {
        lines.len() - 1
    };
    assert(k == 0 || k == 1);
    assert(k == 0 ==> n * k == 0) by (nonlinear_arith);
    assert(k == 1 ==> n * k == n) by (nonlinear_arith);
}

} // verus!
