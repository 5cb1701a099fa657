//! The byte-level building blocks shared by the log-record and wire
//! formats: blanks, exact tags, and quoted text.
//!
//! Quoting and unquoting of text is `serde_json`'s; everything around a
//! quoted text (where it starts, where it ends, what surrounds it) is
//! decided here.

use vstd::prelude::*;
use vstd::slice::slice_subrange;

verus! {

/// `"`
pub const QUOTE: u8 = 0x22;

/// `\`
pub const BACKSLASH: u8 = 0x5c;

/// `{`
pub const OPEN: u8 = 0x7b;

/// `}`
pub const CLOSE: u8 = 0x7d;

/// `[`
pub const OPEN_LIST: u8 = 0x5b;

/// `]`
pub const CLOSE_LIST: u8 = 0x5d;

/// `:`
pub const COLON: u8 = 0x3a;

/// `,`
pub const COMMA: u8 = 0x2c;

/// Why a parse stopped without a value.
#[derive(Clone, Copy, Debug, PartialEq, Eq, Structural)]
pub enum Flaw {
    /// The input ended where more bytes were needed.
    Truncated,
    /// A byte is present that the format does not allow in its place.
    Malformed,
}

/// `serde_json::Error`, carried through unopened.
#[verifier::external_type_specification]
#[verifier::external_body]
pub struct ExJsonError(serde_json::Error);

/// The JSON string literal that `serde_json` writes for a text.
pub uninterp spec fn quoted(text: Seq<char>) -> Seq<u8>;

/// The text that `serde_json` reads from bytes holding one JSON string,
/// or `None` where it rejects them.
pub uninterp spec fn unquoted(literal: Seq<u8>) -> Option<Seq<char>>;

/// `serde_json::to_vec` on a `str`: the text as a JSON string literal.
///
/// Writing a `str` into a `Vec` has no failing path: the `str` serializer
/// only emits a string, and a `Vec` accepts every write.
#[verifier::external_body]
fn quote(text: &str) -> (literal: Vec<u8>)
    ensures
        literal@ == quoted(text@),
{
    serde_json::to_vec(text).unwrap_or_default()
}

/// `serde_json::from_slice::<String>`: reads one JSON string from the
/// whole of `literal`, or reports why it cannot.
#[verifier::external_body]
fn unquote(literal: &[u8]) -> (text: Result<String, serde_json::Error>)
    ensures
        match text {
            Ok(t) => unquoted(literal@) == Some(t@),
            Err(_) => unquoted(literal@) is None,
        },
{
    serde_json::from_slice::<String>(literal)
}

/// Whether `byte` is one of the four blanks that may separate tokens.
pub open spec fn is_space(byte: u8) -> bool {
    byte == 0x20 || byte == 0x09 || byte == 0x0a || byte == 0x0d
}

/// The first position at or after `from` that holds no blank.
pub open spec fn skip_space(bytes: Seq<u8>, from: int) -> int
    decreases bytes.len() - from,
{
    if 0 <= from < bytes.len() && is_space(bytes[from]) {
        skip_space(bytes, from + 1)
    } else {
        from
    }
}

/// The position just past the quote that closes a string literal whose
/// body starts at `from`; a backslash shields the byte after it.
pub open spec fn literal_end(bytes: Seq<u8>, from: int) -> Option<int>
    decreases bytes.len() - from,
{
    if from < 0 || from >= bytes.len() {
        None
    } else if bytes[from] == QUOTE {
        Some(from + 1)
    } else if bytes[from] == BACKSLASH {
        if from + 1 >= bytes.len() {
            None
        } else {
            literal_end(bytes, from + 2)
        }
    } else {
        literal_end(bytes, from + 1)
    }
}

/// Skips blanks, then demands `byte`; yields the position after it.
pub open spec fn expect(bytes: Seq<u8>, from: int, byte: u8) -> Result<int, Flaw> {
    let at = skip_space(bytes, from);
    if at >= bytes.len() {
        Err(Flaw::Truncated)
    } else if bytes[at] == byte {
        Ok(at + 1)
    } else {
        Err(Flaw::Malformed)
    }
}

/// Demands the bytes of `tag` at exactly `from`. Input that ends while it
/// still agrees with `tag` is truncated, not malformed.
pub open spec fn tag_at(bytes: Seq<u8>, from: int, tag: Seq<u8>) -> Result<int, Flaw> {
    let left = bytes.len() - from;
    if left >= tag.len() {
        if bytes.subrange(from, from + tag.len()) == tag {
            Ok(from + tag.len())
        } else {
            Err(Flaw::Malformed)
        }
    } else if bytes.subrange(from, bytes.len() as int) == tag.subrange(0, left) {
        Err(Flaw::Truncated)
    } else {
        Err(Flaw::Malformed)
    }
}

/// Skips blanks, then reads one quoted text; yields it with the position
/// after its closing quote.
pub open spec fn text_at(bytes: Seq<u8>, from: int) -> Result<(Seq<char>, int), Flaw> {
    let at = skip_space(bytes, from);
    if at >= bytes.len() {
        Err(Flaw::Truncated)
    } else if bytes[at] != QUOTE {
        Err(Flaw::Malformed)
    } else {
        match literal_end(bytes, at + 1) {
            None => Err(Flaw::Truncated),
            Some(end) => match unquoted(bytes.subrange(at, end)) {
                Some(text) => Ok((text, end)),
                None => Err(Flaw::Malformed),
            },
        }
    }
}

/// Whether `literal` is delimited as a string literal: it opens with a
/// quote and the first unshielded quote after that is its last byte.
pub open spec fn is_literal(literal: Seq<u8>) -> bool {
    &&& literal.len() >= 2
    &&& literal[0] == QUOTE
    &&& literal_end(literal, 1) == Some(literal.len() as int)
}

/// Whether quoting `text` gives a well-delimited literal that unquotes to
/// `text` again.
pub open spec fn quotes_faithfully(text: Seq<char>) -> bool {
    &&& is_literal(quoted(text))
    &&& unquoted(quoted(text)) == Some(text)
}

/// Tests whether `serde_json` quotes `text` faithfully: quotes it,
/// checks where the literal ends, and unquotes it again.
pub fn quotes_back(text: &str) -> (faithful: bool)
    ensures
        faithful == quotes_faithfully(text@),
{
    let literal = quote(text);
    if literal.len() < 2 || literal[0] != QUOTE {
        return false;
    }
    match find_literal_end(literal.as_slice(), 1) {
        Some(end) if end == literal.len() => {},
        _ => { return false; },
    }
    match unquote(literal.as_slice()) {
        Ok(back) => back.as_str().to_string() == text.to_string(),
        Err(_) => false,
    }
}

/// Whether `byte` is a blank.
pub fn is_space_byte(byte: u8) -> (blank: bool)
    ensures
        blank == is_space(byte),
{
    byte == 0x20 || byte == 0x09 || byte == 0x0a || byte == 0x0d
}

/// Finds the first position at or after `from` that holds no blank.
pub fn skip_space_from(bytes: &[u8], from: usize) -> (at: usize)
    requires
        from <= bytes@.len(),
    ensures
        at == skip_space(bytes@, from as int),
        from <= at <= bytes@.len(),
{
    let mut at: usize = from;
    while at < bytes.len() && is_space_byte(bytes[at])
        invariant
            from <= at <= bytes@.len(),
            skip_space(bytes@, at as int) == skip_space(bytes@, from as int),
        decreases bytes@.len() - at,
    {
        at += 1;
    }
    at
}

/// Finds the end of the string literal whose body starts at `from`.
pub fn find_literal_end(bytes: &[u8], from: usize) -> (end: Option<usize>)
    requires
        from <= bytes@.len(),
    ensures
        match end {
            Some(e) => literal_end(bytes@, from as int) == Some(e as int) && from < e <= bytes@.len(),
            None => literal_end(bytes@, from as int) is None,
        },
{
    let mut at: usize = from;
    loop
        invariant
            from <= at <= bytes@.len(),
            literal_end(bytes@, at as int) == literal_end(bytes@, from as int),
        decreases bytes@.len() - at,
    {
        if at >= bytes.len() {
            return None;
        }
        let byte: u8 = bytes[at];
        if byte == QUOTE {
            return Some(at + 1);
        }
        if byte == BACKSLASH {
            if at + 1 >= bytes.len() {
                return None;
            }
            at += 2;
        } else {
            at += 1;
        }
    }
}

/// Skips blanks, then demands `byte`.
pub fn expect_byte(bytes: &[u8], from: usize, byte: u8) -> (next: Result<usize, Flaw>)
    requires
        from <= bytes@.len(),
    ensures
        match next {
            Ok(n) => expect(bytes@, from as int, byte) == Ok::<int, Flaw>(n as int) && from < n <= bytes@.len(),
            Err(flaw) => expect(bytes@, from as int, byte) == Err::<int, Flaw>(flaw),
        },
{
    let at = skip_space_from(bytes, from);
    if at >= bytes.len() {
        Err(Flaw::Truncated)
    } else if bytes[at] == byte {
        Ok(at + 1)
    } else {
        Err(Flaw::Malformed)
    }
}

/// Demands the bytes of `tag` at exactly `from`.
pub fn match_tag(bytes: &[u8], from: usize, tag: &[u8]) -> (next: Result<usize, Flaw>)
    requires
        from <= bytes@.len(),
    ensures
        match next {
            Ok(n) => tag_at(bytes@, from as int, tag@) == Ok::<int, Flaw>(n as int) && n == from + tag@.len() && n <= bytes@.len(),
            Err(flaw) => tag_at(bytes@, from as int, tag@) == Err::<int, Flaw>(flaw),
        },
{
    let total: usize = bytes.len();
    let left: usize = total - from;
    let span: usize = if left < tag.len() { left } else { tag.len() };
    let mut i: usize = 0;
    while i < span
        invariant
            total == bytes@.len(),
            from <= total,
            left == total - from,
            span == (if left < tag@.len() { left as int } else { tag@.len() as int }),
            i <= span,
            bytes@.subrange(from as int, from + i) == tag@.subrange(0, i as int),
        decreases span - i,
    {
        if bytes[from + i] != tag[i] {
            proof {
                let whole_b = bytes@.subrange(from as int, from + span);
                let whole_t = tag@.subrange(0, span as int);
                assert(whole_b[i as int] != whole_t[i as int]);
                if left >= tag@.len() {
                    assert(tag@.subrange(0, span as int) == tag@);
                }
            }
            return Err(Flaw::Malformed);
        }
        proof {
            assert(bytes@.subrange(from as int, from + i + 1) == tag@.subrange(0, i + 1)) by {
                let a = bytes@.subrange(from as int, from + i + 1);
                let b = tag@.subrange(0, i + 1);
                assert(a.len() == b.len());
                assert forall|j: int| 0 <= j < a.len() implies a[j] == b[j] by {
                    if j < i {
                        assert(a[j] == bytes@.subrange(from as int, from + i)[j]);
                        assert(b[j] == tag@.subrange(0, i as int)[j]);
                    }
                }
                assert(a =~= b);
            }
        }
        i += 1;
    }
    if left >= tag.len() {
        proof {
            assert(tag@.subrange(0, span as int) == tag@);
        }
        Ok(from + tag.len())
    } else {
        Err(Flaw::Truncated)
    }
}

/// Skips blanks, then reads one quoted text.
pub fn read_text(bytes: &[u8], from: usize) -> (found: Result<(String, usize), Flaw>)
    requires
        from <= bytes@.len(),
    ensures
        match found {
            Ok((text, n)) => text_at(bytes@, from as int) == Ok::<(Seq<char>, int), Flaw>((text@, n as int))
                && from < n <= bytes@.len(),
            Err(flaw) => text_at(bytes@, from as int) == Err::<(Seq<char>, int), Flaw>(flaw),
        },
{
    let at = skip_space_from(bytes, from);
    if at >= bytes.len() {
        return Err(Flaw::Truncated);
    }
    if bytes[at] != QUOTE {
        return Err(Flaw::Malformed);
    }
    match find_literal_end(bytes, at + 1) {
        None => Err(Flaw::Truncated),
        Some(end) => match unquote(slice_subrange(bytes, at, end)) {
            Ok(text) => Ok((text, end)),
            Err(_) => Err(Flaw::Malformed),
        },
    }
}

/// Appends the JSON string literal for `text` to `out`.
pub fn write_text(out: &mut Vec<u8>, text: &str)
    ensures
        final(out)@ == old(out)@ + quoted(text@),
{
    let literal = quote(text);
    append(out, literal.as_slice());
}

/// Appends `part` to `out`.
pub fn append(out: &mut Vec<u8>, part: &[u8])
    ensures
        final(out)@ == old(out)@ + part@,
{
    let mut i: usize = 0;
    while i < part.len()
        invariant
            i <= part@.len(),
            out@ == old(out)@ + part@.subrange(0, i as int),
        decreases part@.len() - i,
    {
        out.push(part[i]);
        proof {
            assert(out@ =~= old(out)@ + part@.subrange(0, i + 1));
        }
        i += 1;
    }
    proof {
        assert(part@.subrange(0, part@.len() as int) =~= part@);
    }
}

/// Skips blanks, demands `{`, and skips the blanks before the tag.
pub open spec fn opening_at(bytes: Seq<u8>, from: int) -> Result<int, Flaw> {
    match expect(bytes, from, OPEN) {
        Ok(next) => Ok(skip_space(bytes, next)),
        Err(flaw) => Err(flaw),
    }
}

/// Demands `tag` at exactly `from`, then a colon; yields the position
/// where the tagged content starts.
pub open spec fn keyed_at(bytes: Seq<u8>, from: int, tag: Seq<u8>) -> Result<int, Flaw> {
    match tag_at(bytes, from, tag) {
        Ok(next) => expect(bytes, next, COLON),
        Err(flaw) => Err(flaw),
    }
}

/// Reads one text, then the `}` that closes the message.
pub open spec fn single_at(bytes: Seq<u8>, from: int) -> Result<(Seq<char>, int), Flaw> {
    match text_at(bytes, from) {
        Ok((text, next)) => match expect(bytes, next, CLOSE) {
            Ok(end) => Ok((text, end)),
            Err(flaw) => Err(flaw),
        },
        Err(flaw) => Err(flaw),
    }
}

/// Reads a list of exactly two texts, then the `}` that closes the message.
pub open spec fn pair_at(bytes: Seq<u8>, from: int) -> Result<((Seq<char>, Seq<char>), int), Flaw> {
    match expect(bytes, from, OPEN_LIST) {
        Err(flaw) => Err(flaw),
        Ok(a) => match text_at(bytes, a) {
            Err(flaw) => Err(flaw),
            Ok((first, b)) => match expect(bytes, b, COMMA) {
                Err(flaw) => Err(flaw),
                Ok(c) => match text_at(bytes, c) {
                    Err(flaw) => Err(flaw),
                    Ok((second, d)) => match expect(bytes, d, CLOSE_LIST) {
                        Err(flaw) => Err(flaw),
                        Ok(e) => match expect(bytes, e, CLOSE) {
                            Err(flaw) => Err(flaw),
                            Ok(end) => Ok(((first, second), end)),
                        },
                    },
                },
            },
        },
    }
}

/// The flaw to report when neither of two tags matched: the input is
/// truncated if it could still grow into either of them.
pub open spec fn either_flaw(first: Flaw, second: Flaw) -> Flaw {
    if first == Flaw::Truncated || second == Flaw::Truncated {
        Flaw::Truncated
    } else {
        Flaw::Malformed
    }
}

/// `{` tag `:` text `}`
pub open spec fn single_message(tag: Seq<u8>, text: Seq<char>) -> Seq<u8> {
    seq![OPEN] + tag + seq![COLON] + quoted(text) + seq![CLOSE]
}

/// `{` tag `:[` first `,` second `]}`
pub open spec fn pair_message(tag: Seq<u8>, first: Seq<char>, second: Seq<char>) -> Seq<u8> {
    seq![OPEN] + tag + seq![COLON, OPEN_LIST] + quoted(first) + seq![COMMA] + quoted(second)
        + seq![CLOSE_LIST, CLOSE]
}

/// Skips blanks, demands `{`, and skips the blanks before the tag.
pub fn read_opening(bytes: &[u8], from: usize) -> (next: Result<usize, Flaw>)
    requires
        from <= bytes@.len(),
    ensures
        match next {
            Ok(n) => opening_at(bytes@, from as int) == Ok::<int, Flaw>(n as int) && from < n <= bytes@.len(),
            Err(flaw) => opening_at(bytes@, from as int) == Err::<int, Flaw>(flaw),
        },
{
    match expect_byte(bytes, from, OPEN) {
        Ok(next) => Ok(skip_space_from(bytes, next)),
        Err(flaw) => Err(flaw),
    }
}

/// Demands `tag` at exactly `from`, then a colon.
pub fn read_key(bytes: &[u8], from: usize, tag: &[u8]) -> (next: Result<usize, Flaw>)
    requires
        from <= bytes@.len(),
    ensures
        match next {
            Ok(n) => keyed_at(bytes@, from as int, tag@) == Ok::<int, Flaw>(n as int) && from < n <= bytes@.len(),
            Err(flaw) => keyed_at(bytes@, from as int, tag@) == Err::<int, Flaw>(flaw),
        },
{
    match match_tag(bytes, from, tag) {
        Ok(next) => expect_byte(bytes, next, COLON),
        Err(flaw) => Err(flaw),
    }
}

/// Reads one text, then the `}` that closes the message.
pub fn read_single(bytes: &[u8], from: usize) -> (found: Result<(String, usize), Flaw>)
    requires
        from <= bytes@.len(),
    ensures
        match found {
            Ok((text, n)) => single_at(bytes@, from as int) == Ok::<(Seq<char>, int), Flaw>((text@, n as int))
                && from < n <= bytes@.len(),
            Err(flaw) => single_at(bytes@, from as int) == Err::<(Seq<char>, int), Flaw>(flaw),
        },
{
    match read_text(bytes, from) {
        Ok((text, next)) => match expect_byte(bytes, next, CLOSE) {
            Ok(end) => Ok((text, end)),
            Err(flaw) => Err(flaw),
        },
        Err(flaw) => Err(flaw),
    }
}

/// Reads a list of exactly two texts, then the `}` that closes the message.
pub fn read_pair(bytes: &[u8], from: usize) -> (found: Result<(String, String, usize), Flaw>)
    requires
        from <= bytes@.len(),
    ensures
        match found {
            Ok((first, second, n)) => pair_at(bytes@, from as int) == Ok::<((Seq<char>, Seq<char>), int), Flaw>(
                ((first@, second@), n as int),
            ) && from < n <= bytes@.len(),
            Err(flaw) => pair_at(bytes@, from as int) == Err::<((Seq<char>, Seq<char>), int), Flaw>(flaw),
        },
{
    let a = match expect_byte(bytes, from, OPEN_LIST) {
        Ok(a) => a,
        Err(flaw) => { return Err(flaw); },
    };
    let (first, b) = match read_text(bytes, a) {
        Ok(found) => found,
        Err(flaw) => { return Err(flaw); },
    };
    let c = match expect_byte(bytes, b, COMMA) {
        Ok(c) => c,
        Err(flaw) => { return Err(flaw); },
    };
    let (second, d) = match read_text(bytes, c) {
        Ok(found) => found,
        Err(flaw) => { return Err(flaw); },
    };
    let e = match expect_byte(bytes, d, CLOSE_LIST) {
        Ok(e) => e,
        Err(flaw) => { return Err(flaw); },
    };
    match expect_byte(bytes, e, CLOSE) {
        Ok(end) => Ok((first, second, end)),
        Err(flaw) => Err(flaw),
    }
}

/// The flaw to report when neither of two tags matched.
pub fn merge_flaws(first: Flaw, second: Flaw) -> (flaw: Flaw)
    ensures
        flaw == either_flaw(first, second),
{
    match (first, second) {
        (Flaw::Malformed, Flaw::Malformed) => Flaw::Malformed,
        _ => Flaw::Truncated,
    }
}

/// Writes `{` tag `:` text `}`.
pub fn write_single(tag: &[u8], text: &str) -> (out: Vec<u8>)
    ensures
        out@ == single_message(tag@, text@),
{
    let mut out: Vec<u8> = Vec::new();
    out.push(OPEN);
    append(&mut out, tag);
    out.push(COLON);
    write_text(&mut out, text);
    out.push(CLOSE);
    proof {
        assert(out@ =~= single_message(tag@, text@));
    }
    out
}

/// Writes `{` tag `:[` first `,` second `]}`.
pub fn write_pair(tag: &[u8], first: &str, second: &str) -> (out: Vec<u8>)
    ensures
        out@ == pair_message(tag@, first@, second@),
{
    let mut out: Vec<u8> = Vec::new();
    out.push(OPEN);
    append(&mut out, tag);
    out.push(COLON);
    out.push(OPEN_LIST);
    write_text(&mut out, first);
    out.push(COMMA);
    write_text(&mut out, second);
    out.push(CLOSE_LIST);
    out.push(CLOSE);
    proof {
        assert(out@ =~= pair_message(tag@, first@, second@));
    }
    out
}

/// A literal that lies inside a longer input ends there where it ends
/// on its own.
pub proof fn lemma_literal_end_inside(bytes: Seq<u8>, from: int, literal: Seq<u8>, at: int)
    requires
        0 <= from,
        from + literal.len() <= bytes.len(),
        bytes.subrange(from, from + literal.len()) == literal,
        0 <= at,
        literal_end(literal, at) is Some,
    ensures
        literal_end(bytes, from + at) == Some(from + literal_end(literal, at).unwrap()),
    decreases literal.len() - at,
{
    assert(at < literal.len());
    assert(literal[at] == bytes.subrange(from, from + literal.len())[at]);
    if literal[at] == QUOTE {
    } else if literal[at] == BACKSLASH {
        lemma_literal_end_inside(bytes, from, literal, at + 2);
    } else {
        lemma_literal_end_inside(bytes, from, literal, at + 1);
    }
}

/// Where the quoted form of a faithful text lies at `from`, reading a
/// text there gives that text and stops right after the literal.
pub proof fn lemma_text_at_quoted(bytes: Seq<u8>, from: int, text: Seq<char>)
    requires
        quotes_faithfully(text),
        0 <= from,
        from + quoted(text).len() <= bytes.len(),
        bytes.subrange(from, from + quoted(text).len()) == quoted(text),
    ensures
        text_at(bytes, from) == Ok::<(Seq<char>, int), Flaw>((text, from + quoted(text).len())),
{
    let literal = quoted(text);
    assert(bytes[from] == bytes.subrange(from, from + literal.len())[0]);
    assert(!is_space(QUOTE));
    assert(skip_space(bytes, from) == from);
    lemma_literal_end_inside(bytes, from, literal, 1);
}

/// A byte that is no blank is found right where it stands.
pub proof fn lemma_expect_here(bytes: Seq<u8>, at: int, byte: u8)
    requires
        0 <= at < bytes.len(),
        bytes[at] == byte,
        !is_space(byte),
    ensures
        expect(bytes, at, byte) == Ok::<int, Flaw>(at + 1),
{
}

/// Reading back `text }`.
pub proof fn lemma_single_at(bytes: Seq<u8>, from: int, text: Seq<char>)
    requires
        quotes_faithfully(text),
        0 <= from,
        from + quoted(text).len() + 1 <= bytes.len(),
        bytes.subrange(from, from + quoted(text).len() + 1) == quoted(text) + seq![CLOSE],
    ensures
        single_at(bytes, from) == Ok::<(Seq<char>, int), Flaw>((text, from + quoted(text).len() + 1)),
{
    let n = quoted(text).len() as int;
    let part = bytes.subrange(from, from + n + 1);
    assert(bytes.subrange(from, from + n) =~= quoted(text)) by {
        assert forall|i: int| 0 <= i < n implies bytes.subrange(from, from + n)[i] == quoted(text)[i] by {
            assert(part[i] == quoted(text)[i]);
        }
    }
    lemma_text_at_quoted(bytes, from, text);
    assert(bytes[from + n] == part[n]);
    lemma_expect_here(bytes, from + n, CLOSE);
}

/// Reading back `[ first , second ] }`.
pub proof fn lemma_pair_at(bytes: Seq<u8>, from: int, first: Seq<char>, second: Seq<char>)
    requires
        quotes_faithfully(first),
        quotes_faithfully(second),
        0 <= from,
        from + quoted(first).len() + quoted(second).len() + 4 <= bytes.len(),
        bytes.subrange(from, from + quoted(first).len() + quoted(second).len() + 4) == seq![OPEN_LIST]
            + quoted(first) + seq![COMMA] + quoted(second) + seq![CLOSE_LIST, CLOSE],
    ensures
        pair_at(bytes, from) == Ok::<((Seq<char>, Seq<char>), int), Flaw>(
            ((first, second), from + quoted(first).len() + quoted(second).len() + 4),
        ),
{
    let a = quoted(first).len() as int;
    let b = quoted(second).len() as int;
    let part = bytes.subrange(from, from + a + b + 4);
    let whole = seq![OPEN_LIST] + quoted(first) + seq![COMMA] + quoted(second) + seq![CLOSE_LIST, CLOSE];
    assert(bytes[from] == part[0]);
    lemma_expect_here(bytes, from, OPEN_LIST);
    assert(bytes.subrange(from + 1, from + 1 + a) =~= quoted(first)) by {
        assert forall|i: int| 0 <= i < a implies bytes.subrange(from + 1, from + 1 + a)[i] == quoted(first)[i] by {
            assert(part[i + 1] == whole[i + 1]);
        }
    }
    lemma_text_at_quoted(bytes, from + 1, first);
    assert(bytes[from + 1 + a] == part[1 + a]);
    lemma_expect_here(bytes, from + 1 + a, COMMA);
    assert(bytes.subrange(from + 2 + a, from + 2 + a + b) =~= quoted(second)) by {
        assert forall|i: int| 0 <= i < b implies bytes.subrange(from + 2 + a, from + 2 + a + b)[i] == quoted(
            second,
        )[i] by {
            assert(part[i + 2 + a] == whole[i + 2 + a]);
        }
    }
    lemma_text_at_quoted(bytes, from + 2 + a, second);
    assert(bytes[from + 2 + a + b] == part[2 + a + b]);
    lemma_expect_here(bytes, from + 2 + a + b, CLOSE_LIST);
    assert(bytes[from + 3 + a + b] == part[3 + a + b]);
    lemma_expect_here(bytes, from + 3 + a + b, CLOSE);
}

/// A tag that lies at `from` with a colon behind it is found there.
pub proof fn lemma_keyed_at(bytes: Seq<u8>, from: int, tag: Seq<u8>)
    requires
        0 <= from,
        from + tag.len() + 1 <= bytes.len(),
        bytes.subrange(from, from + tag.len()) == tag,
        bytes[from + tag.len()] == COLON,
    ensures
        keyed_at(bytes, from, tag) == Ok::<int, Flaw>(from + tag.len() + 1),
{
    lemma_expect_here(bytes, from + tag.len(), COLON);
}

/// Where the input differs from `tag` at one of its positions, the tag
/// is reported as malformed there.
pub proof fn lemma_keyed_at_differs(bytes: Seq<u8>, from: int, tag: Seq<u8>, i: int)
    requires
        0 <= from,
        0 <= i < tag.len(),
        from + i < bytes.len(),
        bytes[from + i] != tag[i],
    ensures
        keyed_at(bytes, from, tag) == Err::<int, Flaw>(Flaw::Malformed),
{
    let left = bytes.len() - from;
    if left >= tag.len() {
        assert(bytes.subrange(from, from + tag.len())[i] != tag[i]);
    } else {
        assert(bytes.subrange(from, bytes.len() as int)[i] != tag.subrange(0, left)[i]);
    }
}

/// A stretch of a stretch of the input is a stretch of the input.
pub proof fn lemma_part(bytes: Seq<u8>, from: int, whole: Seq<u8>, i: int, j: int)
    requires
        0 <= from,
        from + whole.len() <= bytes.len(),
        bytes.subrange(from, from + whole.len()) == whole,
        0 <= i <= j <= whole.len(),
    ensures
        bytes.subrange(from + i, from + j) == whole.subrange(i, j),
{
    let part = bytes.subrange(from, from + whole.len());
    assert forall|k: int| 0 <= k < j - i implies bytes.subrange(from + i, from + j)[k] == whole.subrange(i, j)[k] by {
        assert(part[i + k] == whole[i + k]);
    }
    assert(bytes.subrange(from + i, from + j) =~= whole.subrange(i, j));
}

/// Reading back a whole `{` tag `:` text `}` that lies at `from`.
pub proof fn lemma_single_message_at(bytes: Seq<u8>, from: int, tag: Seq<u8>, text: Seq<char>)
    requires
        quotes_faithfully(text),
        tag.len() > 0,
        tag[0] == QUOTE,
        0 <= from,
        from + single_message(tag, text).len() <= bytes.len(),
        bytes.subrange(from, from + single_message(tag, text).len()) == single_message(tag, text),
    ensures
        opening_at(bytes, from) == Ok::<int, Flaw>(from + 1),
        keyed_at(bytes, from + 1, tag) == Ok::<int, Flaw>(from + 2 + tag.len()),
        single_at(bytes, from + 2 + tag.len()) == Ok::<(Seq<char>, int), Flaw>(
            (text, from + single_message(tag, text).len()),
        ),
        tag.len() > 1 ==> bytes[from + 2] == tag[1],
{
    let whole = single_message(tag, text);
    let t = tag.len() as int;
    let a = quoted(text).len() as int;
    assert(whole.len() == t + a + 3);
    assert forall|i: int| 0 <= i < whole.len() implies bytes[from + i] == whole[i] by {
        assert(bytes.subrange(from, from + whole.len())[i] == whole[i]);
    }
    assert(bytes[from] == whole[0]);
    assert(bytes[from + 1] == whole[1]);
    lemma_expect_here(bytes, from, OPEN);
    assert(skip_space(bytes, from + 1) == from + 1);
    lemma_part(bytes, from, whole, 1, 1 + t);
    assert(whole.subrange(1, 1 + t) =~= tag);
    assert(bytes[from + 1 + t] == whole[1 + t]);
    lemma_keyed_at(bytes, from + 1, tag);
    lemma_part(bytes, from, whole, 2 + t, t + a + 3);
    assert(whole.subrange(2 + t, t + a + 3) =~= quoted(text) + seq![CLOSE]);
    lemma_single_at(bytes, from + 2 + t, text);
    if tag.len() > 1 {
        assert(bytes[from + 2] == whole[2]);
    }
}

/// Reading back a whole `{` tag `:[` first `,` second `]}` that lies at
/// `from`.
pub proof fn lemma_pair_message_at(
    bytes: Seq<u8>,
    from: int,
    tag: Seq<u8>,
    first: Seq<char>,
    second: Seq<char>,
)
    requires
        quotes_faithfully(first),
        quotes_faithfully(second),
        tag.len() > 0,
        tag[0] == QUOTE,
        0 <= from,
        from + pair_message(tag, first, second).len() <= bytes.len(),
        bytes.subrange(from, from + pair_message(tag, first, second).len()) == pair_message(
            tag,
            first,
            second,
        ),
    ensures
        opening_at(bytes, from) == Ok::<int, Flaw>(from + 1),
        keyed_at(bytes, from + 1, tag) == Ok::<int, Flaw>(from + 2 + tag.len()),
        pair_at(bytes, from + 2 + tag.len()) == Ok::<((Seq<char>, Seq<char>), int), Flaw>(
            ((first, second), from + pair_message(tag, first, second).len()),
        ),
        tag.len() > 1 ==> bytes[from + 2] == tag[1],
{
    let whole = pair_message(tag, first, second);
    let t = tag.len() as int;
    let a = quoted(first).len() as int;
    let b = quoted(second).len() as int;
    assert(whole.len() == t + a + b + 6);
    assert forall|i: int| 0 <= i < whole.len() implies bytes[from + i] == whole[i] by {
        assert(bytes.subrange(from, from + whole.len())[i] == whole[i]);
    }
    assert(bytes[from] == whole[0]);
    assert(bytes[from + 1] == whole[1]);
    lemma_expect_here(bytes, from, OPEN);
    assert(skip_space(bytes, from + 1) == from + 1);
    lemma_part(bytes, from, whole, 1, 1 + t);
    assert(whole.subrange(1, 1 + t) =~= tag);
    assert(bytes[from + 1 + t] == whole[1 + t]);
    lemma_keyed_at(bytes, from + 1, tag);
    lemma_part(bytes, from, whole, 2 + t, t + a + b + 6);
    assert(whole.subrange(2 + t, t + a + b + 6) =~= seq![OPEN_LIST] + quoted(first) + seq![COMMA] + quoted(
        second,
    ) + seq![CLOSE_LIST, CLOSE]);
    lemma_pair_at(bytes, from + 2 + t, first, second);
    if tag.len() > 1 {
        assert(bytes[from + 2] == whole[2]);
    }
}

} // verus!
