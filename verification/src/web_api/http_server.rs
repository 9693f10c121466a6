//! Reading an HTTP request: the request line, the headers and the body,
//! from the chunks of bytes that the connection delivered.
use vstd::prelude::*;

use crate::text::{chars_of, push_char};
use crate::web_api::api_register::{HttpConnectionDetails, HttpModel, is_http_method, is_known_method};

verus! {

/// Whether `p` holds `..` ending at position `i`.
pub open spec fn dots_at(p: Seq<char>, i: int) -> bool {
    p[i] == '.' && p[i - 1] == '.'
}

/// Whether a path may be served: it holds no `..` and no `<` or `>`.
pub open spec fn path_is_allowed(p: Seq<char>) -> bool {
    &&& forall|i: int| 1 <= i < p.len() ==> !#[trigger] dots_at(p, i)
    &&& forall|i: int| 0 <= i < p.len() ==> p[i] != '<' && p[i] != '>'
}

/// Whether `path` may be served (see `path_is_allowed`).
pub fn validate_path(path: &String) -> (r: bool)
    ensures
        r == path_is_allowed(path@),
{
    let chars = chars_of(path.as_str());
    let n = chars.len();
    let mut i: usize = 1;
    while i < n
        invariant
            n == chars@.len(),
            chars@ == path@,
            1 <= i,
            forall|j: int| 1 <= j < i && j < n ==> !#[trigger] dots_at(chars@, j),
        decreases n - i,
    {
        if chars[i] == '.' && chars[i - 1] == '.' {
            assert(dots_at(path@, i as int));
            return false;
        }
        i = i + 1;
    }
    let mut i: usize = 0;
    while i < n
        invariant
            n == chars@.len(),
            chars@ == path@,
            forall|j: int| 1 <= j < n ==> !#[trigger] dots_at(chars@, j),
            forall|j: int| 0 <= j < i && j < n ==> chars@[j] != '<' && chars@[j] != '>',
        decreases n - i,
    {
        if chars[i] == '<' || chars[i] == '>' {
            return false;
        }
        i = i + 1;
    }
    true
}

/// Why a request is refused.
#[derive(Debug, PartialEq, Eq, Structural)]
pub enum HttpParsingError {
    /// The path of the request line is not one that may be served.
    ForbiddenCharacterInPath,
    /// The method of the request line is not one that a request may name.
    UnrecognizedMethod,
}

/// The length of chunk `c`, or 0 past the last chunk.
pub open spec fn chunk_len(chunks: Seq<Seq<u8>>, c: int) -> int {
    if 0 <= c < chunks.len() {
        chunks[c].len() as int
    } else {
        0
    }
}

/// Whether there is a byte at position `i` of chunk `c`.
pub open spec fn has_byte(chunks: Seq<Seq<u8>>, c: int, i: int) -> bool {
    0 <= c < chunks.len() && 0 <= i < chunks[c].len()
}

/// The position after `i` in chunk `c`: the start of the next chunk when
/// `i` is the last byte of its chunk.
pub open spec fn next_pos(chunks: Seq<Seq<u8>>, c: int, i: int) -> (int, int) {
    if i + 1 == chunk_len(chunks, c) {
        (c + 1, 0)
    } else {
        (c, i + 1)
    }
}

/// The details of a request before anything is read.
pub open spec fn no_details() -> HttpModel {
    HttpModel { method: Seq::empty(), path: Seq::empty(), headers: Map::empty(), data: Seq::empty() }
}

/// Reads the request line from position `(c, i)`, where `buf` holds the
/// word read so far and `status` counts the words before it (up to 2).
/// The first word is the method and the second the path. The line ends
/// with a carriage return, after which reading goes on in the same chunk
/// only. The result is the position reached, the text left in `buf`, and
/// the details.
pub open spec fn scan_request_line(
    chunks: Seq<Seq<u8>>,
    c: int,
    i: int,
    buf: Seq<char>,
    status: int,
    det: HttpModel,
) -> Result<(int, int, Seq<char>, HttpModel), HttpParsingError>
    decreases chunks.len() - c, chunk_len(chunks, c) - i,
{
    if !has_byte(chunks, c, i) {
        Ok((c, i, buf, det))
    } else {
        let b = chunks[c][i];
        let (nc, ni) = next_pos(chunks, c, i);
        if b == 32u8 {
            if status == 0 && !is_http_method(buf) {
                Err(HttpParsingError::UnrecognizedMethod)
            } else if status == 1 && !path_is_allowed(buf) {
                Err(HttpParsingError::ForbiddenCharacterInPath)
            } else {
                let det2 = if status == 0 {
                    HttpModel { method: buf, ..det }
                } else if status == 1 {
                    HttpModel { path: buf, ..det }
                } else {
                    det
                };
                let status2 = if status < 2 { status + 1 } else { 2 };
                scan_request_line(chunks, nc, ni, Seq::empty(), status2, det2)
            }
        } else if b == 13u8 {
            Ok((c, i + 1, Seq::empty(), det))
        } else {
            scan_request_line(chunks, nc, ni, buf.push(b as char), status, det)
        }
    }
}

/// Reads header lines `name: value` from position `(c, i)` up to a
/// carriage return at the start of a line. `status` is 1 while a value is
/// read, whose leading spaces are dropped, and `key` holds the name.
pub open spec fn scan_headers(
    chunks: Seq<Seq<u8>>,
    c: int,
    i: int,
    buf: Seq<char>,
    key: Seq<char>,
    status: int,
    det: HttpModel,
) -> (int, int, Seq<char>, HttpModel)
    decreases chunks.len() - c, chunk_len(chunks, c) - i,
{
    if !has_byte(chunks, c, i) {
        (c, i, buf, det)
    } else {
        let b = chunks[c][i];
        let (nc, ni) = next_pos(chunks, c, i);
        if status == 0 {
            if b == 58u8 {
                scan_headers(chunks, nc, ni, Seq::empty(), buf, 1, det)
            } else if b == 13u8 {
                (c, i, buf, det)
            } else if b == 10u8 {
                scan_headers(chunks, nc, ni, buf, key, 0, det)
            } else {
                scan_headers(chunks, nc, ni, buf.push(b as char), key, 0, det)
            }
        } else if b == 13u8 {
            let det2 = HttpModel { headers: det.headers.insert(key, buf), ..det };
            scan_headers(chunks, nc, ni, Seq::empty(), Seq::empty(), 0, det2)
        } else if buf.len() > 0 || b != 32u8 {
            scan_headers(chunks, nc, ni, buf.push(b as char), key, 1, det)
        } else {
            scan_headers(chunks, nc, ni, buf, key, 1, det)
        }
    }
}

/// The position after the carriage returns and newlines at `(c, i)`.
pub open spec fn skip_line_ends(chunks: Seq<Seq<u8>>, c: int, i: int) -> (int, int)
    decreases chunks.len() - c, chunk_len(chunks, c) - i,
{
    if has_byte(chunks, c, i) && (chunks[c][i] == 13u8 || chunks[c][i] == 10u8) {
        let (nc, ni) = next_pos(chunks, c, i);
        skip_line_ends(chunks, nc, ni)
    } else {
        (c, i)
    }
}

/// `buf` followed by every byte from `(c, i)` on, each as a character.
pub open spec fn read_body(chunks: Seq<Seq<u8>>, c: int, i: int, buf: Seq<char>) -> Seq<char>
    decreases chunks.len() - c, chunk_len(chunks, c) - i,
{
    if has_byte(chunks, c, i) {
        let (nc, ni) = next_pos(chunks, c, i);
        read_body(chunks, nc, ni, buf.push(chunks[c][i] as char))
    } else {
        buf
    }
}

/// What reading a request from `chunks` gives. A chunk without bytes ends
/// the request, as the end of the connection does.
pub open spec fn spec_request(chunks: Seq<Seq<u8>>) -> Result<HttpModel, HttpParsingError> {
    match scan_request_line(chunks, 0, 0, Seq::empty(), 0, no_details()) {
        Err(e) => Err(e),
        Ok((c, i, buf, det)) => {
            let (c2, i2, buf2, det2) = scan_headers(chunks, c, i, buf, Seq::empty(), 0, det);
            let (c3, i3) = skip_line_ends(chunks, c2, i2);
            Ok(HttpModel { data: read_body(chunks, c3, i3, buf2), ..det2 })
        },
    }
}

/// The bytes from position `(c, i)` on, up to the end of the chunks or to
/// the first chunk without bytes.
pub open spec fn bytes_from(chunks: Seq<Seq<u8>>, c: int, i: int) -> Seq<u8>
    decreases chunks.len() - c, chunk_len(chunks, c) - i,
{
    if has_byte(chunks, c, i) {
        let (nc, ni) = next_pos(chunks, c, i);
        seq![chunks[c][i]] + bytes_from(chunks, nc, ni)
    } else {
        Seq::empty()
    }
}

/// Bytes taken one by one as characters.
pub open spec fn latin1(b: Seq<u8>) -> Seq<char> {
    b.map_values(|x: u8| x as char)
}

/// `b` without the carriage returns and newlines it starts with.
pub open spec fn drop_line_ends(b: Seq<u8>) -> Seq<u8>
    decreases b.len(),
{
    if b.len() > 0 && (b[0] == 13u8 || b[0] == 10u8) {
        drop_line_ends(b.drop_first())
    } else {
        b
    }
}

/// Reading the body appends every remaining byte, as a character.
pub proof fn law_body(chunks: Seq<Seq<u8>>, c: int, i: int, buf: Seq<char>)
    ensures
        read_body(chunks, c, i, buf) == buf + latin1(bytes_from(chunks, c, i)),
    decreases chunks.len() - c, chunk_len(chunks, c) - i,
{
    if has_byte(chunks, c, i) {
        let (nc, ni) = next_pos(chunks, c, i);
        let b = chunks[c][i];
        law_body(chunks, nc, ni, buf.push(b as char));
        assert(buf.push(b as char) + latin1(bytes_from(chunks, nc, ni)) =~= buf + latin1(
            bytes_from(chunks, c, i),
        ));
    } else {
        assert(buf + latin1(Seq::empty()) =~= buf);
    }
}

/// Skipping the line ends leaves the remaining bytes without the carriage
/// returns and newlines they start with.
pub proof fn law_skip_line_ends(chunks: Seq<Seq<u8>>, c: int, i: int)
    ensures
        bytes_from(chunks, skip_line_ends(chunks, c, i).0, skip_line_ends(chunks, c, i).1)
            == drop_line_ends(bytes_from(chunks, c, i)),
    decreases chunks.len() - c, chunk_len(chunks, c) - i,
{
    if has_byte(chunks, c, i) && (chunks[c][i] == 13u8 || chunks[c][i] == 10u8) {
        let (nc, ni) = next_pos(chunks, c, i);
        law_skip_line_ends(chunks, nc, ni);
        assert(bytes_from(chunks, c, i).drop_first() =~= bytes_from(chunks, nc, ni));
    }
}

/// The body of a request read is what the headers left unread, then every
/// byte after the line ends that follow the headers, as characters.
pub proof fn law_request_body(chunks: Seq<Seq<u8>>)
    ensures
        match scan_request_line(chunks, 0, 0, Seq::empty(), 0, no_details()) {
            Ok((c, i, buf, det)) => {
                let (c2, i2, buf2, det2) = scan_headers(chunks, c, i, buf, Seq::empty(), 0, det);
                spec_request(chunks) == Ok::<HttpModel, HttpParsingError>(
                    HttpModel {
                        data: buf2 + latin1(drop_line_ends(bytes_from(chunks, c2, i2))),
                        ..det2
                    },
                )
            },
            Err(_) => true,
        },
{
    if let Ok((c, i, buf, det)) = scan_request_line(chunks, 0, 0, Seq::empty(), 0, no_details()) {
        let (c2, i2, buf2, det2) = scan_headers(chunks, c, i, buf, Seq::empty(), 0, det);
        law_skip_line_ends(chunks, c2, i2);
        let (c3, i3) = skip_line_ends(chunks, c2, i2);
        law_body(chunks, c3, i3, buf2);
    }
}

/// `x` without the spaces it starts with.
pub open spec fn drop_leading_spaces(x: Seq<char>) -> Seq<char>
    decreases x.len(),
{
    if x.len() > 0 && x[0] == ' ' {
        drop_leading_spaces(x.drop_first())
    } else {
        x
    }
}

proof fn lemma_drop_leading_spaces_push(x: Seq<char>, ch: char)
    ensures
        drop_leading_spaces(x.push(ch)) == (if drop_leading_spaces(x).len() > 0 || ch != ' ' {
            drop_leading_spaces(x).push(ch)
        } else {
            drop_leading_spaces(x)
        }),
    decreases x.len(),
{
    if x.len() == 0 {
        assert(x.push(ch).drop_first() =~= x);
    } else if x[0] == ' ' {
        assert(x.push(ch).drop_first() =~= x.drop_first().push(ch));
        lemma_drop_leading_spaces_push(x.drop_first(), ch);
    }
}

proof fn lemma_header_name(
    chunks: Seq<Seq<u8>>,
    c: int,
    i: int,
    q: int,
    k: Seq<u8>,
    key: Seq<char>,
    det: HttpModel,
)
    requires
        0 <= c < chunks.len(),
        0 <= i <= q <= i + k.len(),
        i + k.len() < chunks[c].len(),
        chunks[c].subrange(i, i + k.len()) == k,
        forall|l: int| 0 <= l < k.len() ==> #[trigger] k[l] != 58u8 && k[l] != 13u8 && k[l] != 10u8,
    ensures
        scan_headers(chunks, c, q, latin1(k.take(q - i)), key, 0, det) == scan_headers(
            chunks,
            c,
            i + k.len(),
            latin1(k),
            key,
            0,
            det,
        ),
    decreases i + k.len() - q,
{
    if q < i + k.len() {
        assert(chunks[c][q] == k[q - i]);
        assert(latin1(k.take(q - i)).push(k[q - i] as char) =~= latin1(k.take(q + 1 - i)));
        lemma_header_name(chunks, c, i, q + 1, k, key, det);
    } else {
        assert(k.take(q - i) =~= k);
    }
}

proof fn lemma_header_value(
    chunks: Seq<Seq<u8>>,
    c: int,
    s: int,
    q: int,
    v: Seq<u8>,
    key: Seq<char>,
    det: HttpModel,
)
    requires
        0 <= c < chunks.len(),
        0 <= s <= q <= s + v.len(),
        s + v.len() < chunks[c].len(),
        chunks[c].subrange(s, s + v.len()) == v,
        forall|l: int| 0 <= l < v.len() ==> #[trigger] v[l] != 13u8,
    ensures
        scan_headers(chunks, c, q, drop_leading_spaces(latin1(v.take(q - s))), key, 1, det)
            == scan_headers(chunks, c, s + v.len(), drop_leading_spaces(latin1(v)), key, 1, det),
    decreases s + v.len() - q,
{
    if q < s + v.len() {
        let b = v[q - s];
        assert(chunks[c][q] == b);
        assert(latin1(v.take(q - s)).push(b as char) =~= latin1(v.take(q + 1 - s)));
        lemma_drop_leading_spaces_push(latin1(v.take(q - s)), b as char);
        assert((b as char == ' ') == (b == 32u8));
        lemma_header_value(chunks, c, s, q + 1, v, key, det);
    } else {
        assert(v.take(q - s) =~= v);
    }
}

/// A header line `name:value` followed by a carriage return, lying in one
/// chunk: the header `name` (as it stands) gets the value without its
/// leading spaces, in place of any value it had before, and reading goes
/// on after the carriage return.
pub proof fn law_header_line(
    chunks: Seq<Seq<u8>>,
    c: int,
    i: int,
    name: Seq<u8>,
    value: Seq<u8>,
    key: Seq<char>,
    det: HttpModel,
)
    requires
        0 <= c < chunks.len(),
        0 <= i,
        i + name.len() + value.len() + 2 <= chunks[c].len(),
        chunks[c].subrange(i, i + name.len() + value.len() + 2) == name + seq![58u8] + value + seq![13u8],
        forall|l: int| 0 <= l < name.len() ==> #[trigger] name[l] != 58u8 && name[l] != 13u8 && name[l] != 10u8,
        forall|l: int| 0 <= l < value.len() ==> #[trigger] value[l] != 13u8,
    ensures
        scan_headers(chunks, c, i, Seq::empty(), key, 0, det) == ({
            let (nc, ni) = next_pos(chunks, c, i + name.len() + value.len() + 1);
            scan_headers(
                chunks,
                nc,
                ni,
                Seq::empty(),
                Seq::empty(),
                0,
                HttpModel {
                    headers: det.headers.insert(latin1(name), drop_leading_spaces(latin1(value))),
                    ..det
                },
            )
        }),
{
    let line = name + seq![58u8] + value + seq![13u8];
    let n = name.len() as int;
    let s = i + n + 1;
    let e = s + value.len();
    assert(chunks[c].subrange(i, i + n) =~= line.subrange(0, n));
    assert(line.subrange(0, n) =~= name);
    assert(chunks[c].subrange(s, e) =~= line.subrange(n + 1, n + 1 + value.len()));
    assert(line.subrange(n + 1, n + 1 + value.len()) =~= value);
    assert(chunks[c][i + n] == line[n]);
    assert(chunks[c][e] == line[n + 1 + value.len()]);
    assert(latin1(name.take(0)) =~= Seq::<char>::empty());
    lemma_header_name(chunks, c, i, i, name, key, det);
    assert(latin1(value.take(0)) =~= Seq::<char>::empty());
    assert(drop_leading_spaces(Seq::<char>::empty()) == Seq::<char>::empty());
    lemma_header_value(chunks, c, s, s, value, latin1(name), det);
}

/// Two header lines for the same name, one after the other in one chunk:
/// the header keeps the second value.
pub proof fn law_header_last_value_wins(
    chunks: Seq<Seq<u8>>,
    c: int,
    i: int,
    name: Seq<u8>,
    first: Seq<u8>,
    second: Seq<u8>,
    key: Seq<char>,
    det: HttpModel,
)
    requires
        0 <= c < chunks.len(),
        0 <= i,
        i + 2 * name.len() + first.len() + second.len() + 4 <= chunks[c].len(),
        chunks[c].subrange(i, i + 2 * name.len() + first.len() + second.len() + 4) == name + seq![58u8]
            + first + seq![13u8] + name + seq![58u8] + second + seq![13u8],
        forall|l: int| 0 <= l < name.len() ==> #[trigger] name[l] != 58u8 && name[l] != 13u8 && name[l] != 10u8,
        forall|l: int| 0 <= l < first.len() ==> #[trigger] first[l] != 13u8,
        forall|l: int| 0 <= l < second.len() ==> #[trigger] second[l] != 13u8,
    ensures
        scan_headers(chunks, c, i, Seq::empty(), key, 0, det) == ({
            let (nc, ni) = next_pos(
                chunks,
                c,
                i + 2 * name.len() + first.len() + second.len() + 3,
            );
            scan_headers(
                chunks,
                nc,
                ni,
                Seq::empty(),
                Seq::empty(),
                0,
                HttpModel {
                    headers: det.headers.insert(latin1(name), drop_leading_spaces(latin1(second))),
                    ..det
                },
            )
        }),
{
    let l1: int = name.len() + first.len() + 2int;
    let l2: int = name.len() + second.len() + 2int;
    let all = name + seq![58u8] + first + seq![13u8] + name + seq![58u8] + second + seq![13u8];
    assert(chunks[c].subrange(i, i + l1) =~= all.subrange(0, l1));
    assert(all.subrange(0, l1) =~= name + seq![58u8] + first + seq![13u8]);
    assert(chunks[c].subrange(i + l1, i + l1 + l2) =~= all.subrange(l1, l1 + l2));
    assert(all.subrange(l1, l1 + l2) =~= name + seq![58u8] + second + seq![13u8]);
    law_header_line(chunks, c, i, name, first, key, det);
    let det1 = HttpModel {
        headers: det.headers.insert(latin1(name), drop_leading_spaces(latin1(first))),
        ..det
    };
    assert(next_pos(chunks, c, i + l1 - 1) == (c, i + l1));
    law_header_line(chunks, c, i + l1, name, second, Seq::empty(), det1);
    assert(det1.headers.insert(latin1(name), drop_leading_spaces(latin1(second))) =~= det.headers.insert(
        latin1(name),
        drop_leading_spaces(latin1(second)),
    ));
}

/// Whether a request's method is empty or one a request may name, and its
/// path one that may be served.
pub open spec fn line_is_sound(det: HttpModel) -> bool {
    &&& det.method.len() == 0 || is_http_method(det.method)
    &&& path_is_allowed(det.path)
}

proof fn lemma_request_line_sound(
    chunks: Seq<Seq<u8>>,
    c: int,
    i: int,
    buf: Seq<char>,
    status: int,
    det: HttpModel,
)
    requires
        line_is_sound(det),
    ensures
        scan_request_line(chunks, c, i, buf, status, det) matches Ok((_, _, _, d)) ==> line_is_sound(d),
    decreases chunks.len() - c, chunk_len(chunks, c) - i,
{
    if has_byte(chunks, c, i) {
        let b = chunks[c][i];
        let (nc, ni) = next_pos(chunks, c, i);
        if b == 32u8 {
            if !(status == 0 && !is_http_method(buf)) && !(status == 1 && !path_is_allowed(buf)) {
                let det2 = if status == 0 {
                    HttpModel { method: buf, ..det }
                } else if status == 1 {
                    HttpModel { path: buf, ..det }
                } else {
                    det
                };
                let status2 = if status < 2 { status + 1 } else { 2 };
                lemma_request_line_sound(chunks, nc, ni, Seq::empty(), status2, det2);
            }
        } else if b != 13u8 {
            lemma_request_line_sound(chunks, nc, ni, buf.push(b as char), status, det);
        }
    }
}

proof fn lemma_headers_keep_line(
    chunks: Seq<Seq<u8>>,
    c: int,
    i: int,
    buf: Seq<char>,
    key: Seq<char>,
    status: int,
    det: HttpModel,
)
    ensures
        scan_headers(chunks, c, i, buf, key, status, det).3.method == det.method,
        scan_headers(chunks, c, i, buf, key, status, det).3.path == det.path,
    decreases chunks.len() - c, chunk_len(chunks, c) - i,
{
    if has_byte(chunks, c, i) {
        let b = chunks[c][i];
        let (nc, ni) = next_pos(chunks, c, i);
        if status == 0 {
            if b == 58u8 {
                lemma_headers_keep_line(chunks, nc, ni, Seq::empty(), buf, 1, det);
            } else if b == 10u8 {
                lemma_headers_keep_line(chunks, nc, ni, buf, key, 0, det);
            } else if b != 13u8 {
                lemma_headers_keep_line(chunks, nc, ni, buf.push(b as char), key, 0, det);
            }
        } else if b == 13u8 {
            let det2 = HttpModel { headers: det.headers.insert(key, buf), ..det };
            lemma_headers_keep_line(chunks, nc, ni, Seq::empty(), Seq::empty(), 0, det2);
        } else if buf.len() > 0 || b != 32u8 {
            lemma_headers_keep_line(chunks, nc, ni, buf.push(b as char), key, 1, det);
        } else {
            lemma_headers_keep_line(chunks, nc, ni, buf, key, 1, det);
        }
    }
}

/// The position `n` bytes after `(c, i)`.
pub open spec fn advance(chunks: Seq<Seq<u8>>, c: int, i: int, n: nat) -> (int, int)
    decreases n,
{
    if n == 0 {
        (c, i)
    } else {
        let (nc, ni) = next_pos(chunks, c, i);
        advance(chunks, nc, ni, (n - 1) as nat)
    }
}

proof fn lemma_bytes_from_first(chunks: Seq<Seq<u8>>, c: int, i: int)
    requires
        bytes_from(chunks, c, i).len() > 0,
    ensures
        has_byte(chunks, c, i),
        chunks[c][i] == bytes_from(chunks, c, i)[0],
        bytes_from(chunks, next_pos(chunks, c, i).0, next_pos(chunks, c, i).1) == bytes_from(
            chunks,
            c,
            i,
        ).drop_first(),
{
    let (nc, ni) = next_pos(chunks, c, i);
    assert(bytes_from(chunks, c, i).drop_first() =~= bytes_from(chunks, nc, ni));
}

proof fn lemma_line_word(
    chunks: Seq<Seq<u8>>,
    c: int,
    i: int,
    w: Seq<u8>,
    buf: Seq<char>,
    status: int,
    det: HttpModel,
)
    requires
        bytes_from(chunks, c, i).len() >= w.len(),
        bytes_from(chunks, c, i).take(w.len() as int) == w,
        forall|l: int| 0 <= l < w.len() ==> #[trigger] w[l] != 32u8 && w[l] != 13u8,
    ensures
        scan_request_line(chunks, c, i, buf, status, det) == scan_request_line(
            chunks,
            advance(chunks, c, i, w.len()).0,
            advance(chunks, c, i, w.len()).1,
            buf + latin1(w),
            status,
            det,
        ),
        bytes_from(chunks, advance(chunks, c, i, w.len()).0, advance(chunks, c, i, w.len()).1)
            == bytes_from(chunks, c, i).skip(w.len() as int),
    decreases w.len(),
{
    if w.len() > 0 {
        lemma_bytes_from_first(chunks, c, i);
        assert(w[0] == bytes_from(chunks, c, i).take(w.len() as int)[0]);
        let (nc, ni) = next_pos(chunks, c, i);
        let rest = w.drop_first();
        assert(rest.len() < w.len());
        assert(bytes_from(chunks, nc, ni).take(rest.len() as int) =~= rest);
        assert forall|l: int| 0 <= l < rest.len() implies #[trigger] rest[l] != 32u8 && rest[l] != 13u8 by {
            assert(rest[l] == w[l + 1]);
        }
        lemma_line_word(chunks, nc, ni, rest, buf.push(w[0] as char), status, det);
        assert(buf.push(w[0] as char) + latin1(rest) =~= buf + latin1(w));
        assert(bytes_from(chunks, nc, ni).skip(rest.len() as int) =~= bytes_from(chunks, c, i).skip(
            w.len() as int,
        ));
    } else {
        assert(buf + latin1(w) =~= buf);
        assert(bytes_from(chunks, c, i).skip(0) =~= bytes_from(chunks, c, i));
    }
}

proof fn lemma_line_after_path(chunks: Seq<Seq<u8>>, c: int, i: int, buf: Seq<char>, det: HttpModel)
    ensures
        scan_request_line(chunks, c, i, buf, 2, det) matches Ok((_, _, _, d)) && d == det,
    decreases chunks.len() - c, chunk_len(chunks, c) - i,
{
    if has_byte(chunks, c, i) {
        let b = chunks[c][i];
        let (nc, ni) = next_pos(chunks, c, i);
        if b == 32u8 {
            lemma_line_after_path(chunks, nc, ni, Seq::empty(), det);
        } else if b != 13u8 {
            lemma_line_after_path(chunks, nc, ni, buf.push(b as char), det);
        }
    }
}

/// A request whose bytes start with a method that a request may name, a
/// space, a path and a space is refused with `ForbiddenCharacterInPath`
/// exactly when the path may not be served; otherwise it is read with
/// that method and that path.
pub proof fn law_request_line(chunks: Seq<Seq<u8>>, method: Seq<u8>, path: Seq<u8>)
    requires
        bytes_from(chunks, 0, 0).len() >= method.len() + path.len() + 2,
        bytes_from(chunks, 0, 0).take((method.len() + path.len() + 2) as int) == method + seq![32u8]
            + path + seq![32u8],
        is_http_method(latin1(method)),
        forall|l: int| 0 <= l < path.len() ==> #[trigger] path[l] != 32u8 && path[l] != 13u8,
    ensures
        !path_is_allowed(latin1(path)) ==> spec_request(chunks) == Err::<HttpModel, HttpParsingError>(
            HttpParsingError::ForbiddenCharacterInPath,
        ),
        path_is_allowed(latin1(path)) ==> (spec_request(chunks) matches Ok(m) && m.method == latin1(
            method,
        ) && m.path == latin1(path)),
{
    reveal_strlit("GET");
    reveal_strlit("PUT");
    reveal_strlit("POST");
    reveal_strlit("PATCH");
    reveal_strlit("DELETE");
    reveal_strlit("OPTIONS");
    reveal_strlit("HEAD");
    let m = method.len() as int;
    let p = path.len() as int;
    let line = method + seq![32u8] + path + seq![32u8];
    let all = bytes_from(chunks, 0, 0);
    assert forall|l: int| 0 <= l < method.len() implies #[trigger] method[l] != 32u8 && method[l] != 13u8 by {
        let t = latin1(method);
        assert(t[l] == method[l] as char);
        assert("GET"@ =~= seq!['G', 'E', 'T']);
        assert("PUT"@ =~= seq!['P', 'U', 'T']);
        assert("POST"@ =~= seq!['P', 'O', 'S', 'T']);
        assert("PATCH"@ =~= seq!['P', 'A', 'T', 'C', 'H']);
        assert("DELETE"@ =~= seq!['D', 'E', 'L', 'E', 'T', 'E']);
        assert("OPTIONS"@ =~= seq!['O', 'P', 'T', 'I', 'O', 'N', 'S']);
        assert("HEAD"@ =~= seq!['H', 'E', 'A', 'D']);
        assert(t[l] != ' ' && t[l] != '\r');
    }
    // the method
    assert(all.take(m) =~= line.take(m));
    assert(line.take(m) =~= method);
    lemma_line_word(chunks, 0, 0, method, Seq::empty(), 0, no_details());
    assert(Seq::<char>::empty() + latin1(method) =~= latin1(method));
    let (ac, ai) = advance(chunks, 0, 0, method.len());
    assert(bytes_from(chunks, ac, ai) =~= all.skip(m));
    assert(all.skip(m)[0] == line[m]);
    lemma_bytes_from_first(chunks, ac, ai);
    let det1 = HttpModel { method: latin1(method), ..no_details() };
    let (bc, bi) = next_pos(chunks, ac, ai);
    // the path
    assert(bytes_from(chunks, bc, bi) =~= all.skip(m + 1));
    assert(all.skip(m + 1).take(p) =~= line.subrange(m + 1, m + 1 + p));
    assert(line.subrange(m + 1, m + 1 + p) =~= path);
    lemma_line_word(chunks, bc, bi, path, Seq::empty(), 1, det1);
    assert(Seq::<char>::empty() + latin1(path) =~= latin1(path));
    let (cc, ci) = advance(chunks, bc, bi, path.len());
    assert(bytes_from(chunks, cc, ci) =~= all.skip(m + 1 + p));
    assert(all.skip(m + 1 + p)[0] == line[m + 1 + p]);
    lemma_bytes_from_first(chunks, cc, ci);
    if path_is_allowed(latin1(path)) {
        let det2 = HttpModel { path: latin1(path), ..det1 };
        let (nc, ni) = next_pos(chunks, cc, ci);
        lemma_line_after_path(chunks, nc, ni, Seq::empty(), det2);
        if let Ok((c, i, buf, det)) = scan_request_line(chunks, 0, 0, Seq::empty(), 0, no_details()) {
            lemma_headers_keep_line(chunks, c, i, buf, Seq::empty(), 0, det);
        }
    }
}

/// A request that is read never carries a method that a request may not
/// name (it may carry none) nor a path that may not be served.
pub proof fn law_accepted_request_is_sound(chunks: Seq<Seq<u8>>)
    ensures
        spec_request(chunks) matches Ok(m) ==> line_is_sound(m),
{
    lemma_request_line_sound(chunks, 0, 0, Seq::empty(), 0, no_details());
    if let Ok((c, i, buf, det)) = scan_request_line(chunks, 0, 0, Seq::empty(), 0, no_details()) {
        lemma_headers_keep_line(chunks, c, i, buf, Seq::empty(), 0, det);
    }
}

proof fn lemma_advance_split(chunks: Seq<Seq<u8>>, c: int, i: int, a: nat, b: nat)
    ensures
        advance(chunks, c, i, a + b) == advance(
            chunks,
            advance(chunks, c, i, a).0,
            advance(chunks, c, i, a).1,
            b,
        ),
    decreases a,
{
    if a > 0 {
        let (nc, ni) = next_pos(chunks, c, i);
        lemma_advance_split(chunks, nc, ni, (a - 1) as nat, b);
        assert((a + b - 1) as nat == (a - 1) as nat + b);
    }
}

proof fn lemma_header_name_stream(
    chunks: Seq<Seq<u8>>,
    c: int,
    i: int,
    k: Seq<u8>,
    buf: Seq<char>,
    key: Seq<char>,
    det: HttpModel,
)
    requires
        bytes_from(chunks, c, i).len() >= k.len(),
        bytes_from(chunks, c, i).take(k.len() as int) == k,
        forall|l: int| 0 <= l < k.len() ==> #[trigger] k[l] != 58u8 && k[l] != 13u8 && k[l] != 10u8,
    ensures
        scan_headers(chunks, c, i, buf, key, 0, det) == scan_headers(
            chunks,
            advance(chunks, c, i, k.len()).0,
            advance(chunks, c, i, k.len()).1,
            buf + latin1(k),
            key,
            0,
            det,
        ),
        bytes_from(chunks, advance(chunks, c, i, k.len()).0, advance(chunks, c, i, k.len()).1)
            == bytes_from(chunks, c, i).skip(k.len() as int),
    decreases k.len(),
{
    if k.len() > 0 {
        lemma_bytes_from_first(chunks, c, i);
        assert(k[0] == bytes_from(chunks, c, i).take(k.len() as int)[0]);
        let (nc, ni) = next_pos(chunks, c, i);
        let rest = k.drop_first();
        assert(bytes_from(chunks, nc, ni).take(rest.len() as int) =~= rest);
        assert forall|l: int| 0 <= l < rest.len() implies #[trigger] rest[l] != 58u8 && rest[l] != 13u8
            && rest[l] != 10u8 by {
            assert(rest[l] == k[l + 1]);
        }
        lemma_header_name_stream(chunks, nc, ni, rest, buf.push(k[0] as char), key, det);
        assert(buf.push(k[0] as char) + latin1(rest) =~= buf + latin1(k));
        assert(bytes_from(chunks, nc, ni).skip(rest.len() as int) =~= bytes_from(chunks, c, i).skip(
            k.len() as int,
        ));
    } else {
        assert(buf + latin1(k) =~= buf);
        assert(bytes_from(chunks, c, i).skip(0) =~= bytes_from(chunks, c, i));
    }
}

proof fn lemma_header_value_stream(
    chunks: Seq<Seq<u8>>,
    c: int,
    i: int,
    v: Seq<u8>,
    x: Seq<char>,
    key: Seq<char>,
    det: HttpModel,
)
    requires
        bytes_from(chunks, c, i).len() >= v.len(),
        bytes_from(chunks, c, i).take(v.len() as int) == v,
        forall|l: int| 0 <= l < v.len() ==> #[trigger] v[l] != 13u8,
    ensures
        scan_headers(chunks, c, i, drop_leading_spaces(x), key, 1, det) == scan_headers(
            chunks,
            advance(chunks, c, i, v.len()).0,
            advance(chunks, c, i, v.len()).1,
            drop_leading_spaces(x + latin1(v)),
            key,
            1,
            det,
        ),
        bytes_from(chunks, advance(chunks, c, i, v.len()).0, advance(chunks, c, i, v.len()).1)
            == bytes_from(chunks, c, i).skip(v.len() as int),
    decreases v.len(),
{
    if v.len() > 0 {
        lemma_bytes_from_first(chunks, c, i);
        let b = v[0];
        assert(b == bytes_from(chunks, c, i).take(v.len() as int)[0]);
        let (nc, ni) = next_pos(chunks, c, i);
        let rest = v.drop_first();
        assert(bytes_from(chunks, nc, ni).take(rest.len() as int) =~= rest);
        assert forall|l: int| 0 <= l < rest.len() implies #[trigger] rest[l] != 13u8 by {
            assert(rest[l] == v[l + 1]);
        }
        lemma_drop_leading_spaces_push(x, b as char);
        assert((b as char == ' ') == (b == 32u8));
        lemma_header_value_stream(chunks, nc, ni, rest, x.push(b as char), key, det);
        assert(x.push(b as char) + latin1(rest) =~= x + latin1(v));
        assert(bytes_from(chunks, nc, ni).skip(rest.len() as int) =~= bytes_from(chunks, c, i).skip(
            v.len() as int,
        ));
    } else {
        assert(x + latin1(v) =~= x);
        assert(bytes_from(chunks, c, i).skip(0) =~= bytes_from(chunks, c, i));
    }
}

/// A header line `name:value` followed by a carriage return, wherever the
/// chunks split it: the header `name` (as it stands) gets the whole value
/// without its leading spaces, in place of any value it had before, and
/// reading goes on after the carriage return.
pub proof fn law_header_line_across_chunks(
    chunks: Seq<Seq<u8>>,
    c: int,
    i: int,
    name: Seq<u8>,
    value: Seq<u8>,
    key: Seq<char>,
    det: HttpModel,
)
    requires
        bytes_from(chunks, c, i).len() >= name.len() + value.len() + 2,
        bytes_from(chunks, c, i).take((name.len() + value.len() + 2) as int) == name + seq![58u8]
            + value + seq![13u8],
        forall|l: int| 0 <= l < name.len() ==> #[trigger] name[l] != 58u8 && name[l] != 13u8 && name[l] != 10u8,
        forall|l: int| 0 <= l < value.len() ==> #[trigger] value[l] != 13u8,
    ensures
        scan_headers(chunks, c, i, Seq::empty(), key, 0, det) == scan_headers(
            chunks,
            advance(chunks, c, i, (name.len() + value.len() + 2) as nat).0,
            advance(chunks, c, i, (name.len() + value.len() + 2) as nat).1,
            Seq::empty(),
            Seq::empty(),
            0,
            HttpModel {
                headers: det.headers.insert(latin1(name), drop_leading_spaces(latin1(value))),
                ..det
            },
        ),
{
    let n = name.len() as int;
    let v = value.len() as int;
    let line = name + seq![58u8] + value + seq![13u8];
    let all = bytes_from(chunks, c, i);
    assert(all.take(n) =~= line.take(n));
    assert(line.take(n) =~= name);
    lemma_header_name_stream(chunks, c, i, name, Seq::empty(), key, det);
    assert(Seq::<char>::empty() + latin1(name) =~= latin1(name));
    let (ac, ai) = advance(chunks, c, i, name.len());
    assert(bytes_from(chunks, ac, ai) =~= all.skip(n));
    assert(all.skip(n)[0] == line[n]);
    lemma_bytes_from_first(chunks, ac, ai);
    let (bc, bi) = next_pos(chunks, ac, ai);
    assert(bytes_from(chunks, bc, bi) =~= all.skip(n + 1));
    assert(all.skip(n + 1).take(v) =~= line.subrange(n + 1, n + 1 + v));
    assert(line.subrange(n + 1, n + 1 + v) =~= value);
    assert(drop_leading_spaces(Seq::<char>::empty()) == Seq::<char>::empty());
    lemma_header_value_stream(chunks, bc, bi, value, Seq::empty(), latin1(name), det);
    assert(Seq::<char>::empty() + latin1(value) =~= latin1(value));
    let (cc, ci) = advance(chunks, bc, bi, value.len());
    assert(bytes_from(chunks, cc, ci) =~= all.skip(n + 1 + v));
    assert(all.skip(n + 1 + v)[0] == line[n + 1 + v]);
    lemma_bytes_from_first(chunks, cc, ci);
    // the position after the carriage return
    lemma_advance_split(chunks, c, i, name.len(), 1);
    lemma_advance_split(chunks, c, i, (name.len() + 1) as nat, value.len());
    lemma_advance_split(chunks, c, i, (name.len() + 1 + value.len()) as nat, 1);
    reveal_with_fuel(advance, 2);
    assert(advance(chunks, ac, ai, 1) == (bc, bi));
    assert(advance(chunks, cc, ci, 1) == next_pos(chunks, cc, ci));
}

/// Whether `s` holds no newline.
pub open spec fn has_no_newline(s: Seq<char>) -> bool {
    forall|k: int| 0 <= k < s.len() ==> s[k] != '\n'
}

proof fn lemma_request_line_keeps_headers(
    chunks: Seq<Seq<u8>>,
    c: int,
    i: int,
    buf: Seq<char>,
    status: int,
    det: HttpModel,
)
    ensures
        scan_request_line(chunks, c, i, buf, status, det) matches Ok((c2, i2, b2, d)) ==> d.headers
            == det.headers && (b2 == Seq::<char>::empty() || !has_byte(chunks, c2, i2)),
    decreases chunks.len() - c, chunk_len(chunks, c) - i,
{
    if has_byte(chunks, c, i) {
        let b = chunks[c][i];
        let (nc, ni) = next_pos(chunks, c, i);
        if b == 32u8 {
            if !(status == 0 && !is_http_method(buf)) && !(status == 1 && !path_is_allowed(buf)) {
                let det2 = if status == 0 {
                    HttpModel { method: buf, ..det }
                } else if status == 1 {
                    HttpModel { path: buf, ..det }
                } else {
                    det
                };
                let status2 = if status < 2 { status + 1 } else { 2 };
                lemma_request_line_keeps_headers(chunks, nc, ni, Seq::empty(), status2, det2);
            }
        } else if b != 13u8 {
            lemma_request_line_keeps_headers(chunks, nc, ni, buf.push(b as char), status, det);
        }
    }
}

proof fn lemma_header_names_clean(
    chunks: Seq<Seq<u8>>,
    c: int,
    i: int,
    buf: Seq<char>,
    key: Seq<char>,
    status: int,
    det: HttpModel,
)
    requires
        status == 0 ==> has_no_newline(buf) || !has_byte(chunks, c, i),
        has_no_newline(key),
        forall|k: Seq<char>| #[trigger] det.headers.contains_key(k) ==> has_no_newline(k),
    ensures
        forall|k: Seq<char>|
            #[trigger] scan_headers(chunks, c, i, buf, key, status, det).3.headers.contains_key(k)
                ==> has_no_newline(k),
    decreases chunks.len() - c, chunk_len(chunks, c) - i,
{
    if has_byte(chunks, c, i) {
        let b = chunks[c][i];
        let (nc, ni) = next_pos(chunks, c, i);
        let r = scan_headers(chunks, c, i, buf, key, status, det);
        if status == 0 {
            if b == 58u8 {
                lemma_header_names_clean(chunks, nc, ni, Seq::empty(), buf, 1, det);
                assert(r == scan_headers(chunks, nc, ni, Seq::empty(), buf, 1, det));
            } else if b == 10u8 {
                lemma_header_names_clean(chunks, nc, ni, buf, key, 0, det);
                assert(r == scan_headers(chunks, nc, ni, buf, key, 0, det));
            } else if b != 13u8 {
                let buf2 = buf.push(b as char);
                assert((b as char == '\n') == (b == 10u8));
                assert forall|k: int| 0 <= k < buf2.len() implies buf2[k] != '\n' by {
                    if k < buf.len() {
                        assert(buf2[k] == buf[k]);
                    }
                }
                lemma_header_names_clean(chunks, nc, ni, buf2, key, 0, det);
                assert(r == scan_headers(chunks, nc, ni, buf2, key, 0, det));
            } else {
                assert(r.3 == det);
            }
        } else if b == 13u8 {
            let det2 = HttpModel { headers: det.headers.insert(key, buf), ..det };
            assert forall|k: Seq<char>| #[trigger] det2.headers.contains_key(k) implies has_no_newline(k) by {
                if k != key {
                    assert(det.headers.contains_key(k));
                }
            }
            lemma_header_names_clean(chunks, nc, ni, Seq::empty(), Seq::empty(), 0, det2);
            assert(r == scan_headers(chunks, nc, ni, Seq::empty(), Seq::empty(), 0, det2));
        } else if buf.len() > 0 || b != 32u8 {
            lemma_header_names_clean(chunks, nc, ni, buf.push(b as char), key, 1, det);
            assert(r == scan_headers(chunks, nc, ni, buf.push(b as char), key, 1, det));
        } else {
            lemma_header_names_clean(chunks, nc, ni, buf, key, 1, det);
            assert(r == scan_headers(chunks, nc, ni, buf, key, 1, det));
        }
    }
}

/// A header name never holds a newline: the newline that ends a header
/// line is skipped, wherever the chunks split the text.
pub proof fn law_header_names_have_no_newline(chunks: Seq<Seq<u8>>)
    ensures
        spec_request(chunks) matches Ok(m) ==> forall|k: Seq<char>|
            #[trigger] m.headers.contains_key(k) ==> has_no_newline(k),
{
    lemma_request_line_keeps_headers(chunks, 0, 0, Seq::empty(), 0, no_details());
    if let Ok((c, i, buf, det)) = scan_request_line(chunks, 0, 0, Seq::empty(), 0, no_details()) {
        assert(has_no_newline(Seq::<char>::empty()));
        lemma_header_names_clean(chunks, c, i, buf, Seq::empty(), 0, det);
    }
}

/// The chunks as sequences of bytes.
pub open spec fn chunk_seqs(chunks: Seq<Vec<u8>>) -> Seq<Seq<u8>> {
    chunks.map_values(|v: Vec<u8>| v@)
}

/// The length of chunk `c`, or 0 past the last chunk.
fn chunk_size(chunks: &Vec<Vec<u8>>, c: usize) -> (n: usize)
    ensures
        n == chunk_len(chunk_seqs(chunks@), c as int),
{
    if c < chunks.len() {
        chunks[c].len()
    } else {
        0
    }
}

/// Whether an executable result agrees with a specified one.
pub open spec fn request_agrees(
    r: Result<HttpConnectionDetails, HttpParsingError>,
    s: Result<HttpModel, HttpParsingError>,
) -> bool {
    match (r, s) {
        (Ok(d), Ok(m)) => d@ == m,
        (Err(e), Err(f)) => e == f,
        _ => false,
    }
}

/// Reads a request from the chunks of bytes that a connection delivered,
/// in order (see `spec_request`); the request line must not name a method
/// that a request may not name. A path that may not be served is refused.
pub fn handle_connection(chunks: &Vec<Vec<u8>>) -> (r: Result<HttpConnectionDetails, HttpParsingError>)
    requires
        spec_request(chunk_seqs(chunks@)) != Err::<HttpModel, HttpParsingError>(
            HttpParsingError::UnrecognizedMethod,
        ),
    ensures
        request_agrees(r, spec_request(chunk_seqs(chunks@))),
        r != Err::<HttpConnectionDetails, HttpParsingError>(HttpParsingError::UnrecognizedMethod),
{
    try_handle_connection(chunks)
}

/// Reads a request from the chunks of bytes that a connection delivered,
/// in order (see `spec_request`), refusing an unknown method too.
pub fn try_handle_connection(chunks: &Vec<Vec<u8>>) -> (r: Result<HttpConnectionDetails, HttpParsingError>)
    ensures
        request_agrees(r, spec_request(chunk_seqs(chunks@))),
{
    let ghost cs = chunk_seqs(chunks@);
    let total = chunks.len();
    let mut c: usize = 0;
    let mut i: usize = 0;
    let mut n: usize = chunk_size(chunks, 0);
    let mut buf_str = String::new();
    let mut http_connection_details = HttpConnectionDetails::new();
    let mut status: u8 = 0;
    // the request line
    loop
        invariant_except_break
            n == chunk_len(cs, c as int),
            c <= chunks@.len(),
            i <= n,
            status <= 2,
            scan_request_line(cs, 0, 0, Seq::empty(), 0, no_details()) == scan_request_line(
                cs,
                c as int,
                i as int,
                buf_str@,
                status as int,
                http_connection_details@,
            ),
        invariant
            cs == chunk_seqs(chunks@),
            cs.len() == chunks@.len(),
            total == chunks@.len(),
        ensures
            n == chunk_len(cs, c as int),
            c <= chunks@.len(),
            i <= n,
            scan_request_line(cs, 0, 0, Seq::empty(), 0, no_details()) == Ok::<
                (int, int, Seq<char>, HttpModel),
                HttpParsingError,
            >((c as int, i as int, buf_str@, http_connection_details@)),
        decreases chunks@.len() - c, n - i,
    {
        if i >= n {
            break;
        }
        let b = chunks[c][i];
        assert(b == cs[c as int][i as int]);
        if b == 32u8 {
            if status == 0 {
                if !is_known_method(buf_str.as_str()) {
                    return Err(HttpParsingError::UnrecognizedMethod);
                }
                http_connection_details.set_method(buf_str);
            } else if status == 1 {
                if !validate_path(&buf_str) {
                    return Err(HttpParsingError::ForbiddenCharacterInPath);
                }
                http_connection_details.set_path(buf_str);
            }
            if status < 2 {
                status = status + 1;
            }
            buf_str = String::new();
        } else if b == 13u8 {
            buf_str = String::new();
            i = i + 1;
            break;
        } else {
            push_char(&mut buf_str, b as char);
        }
        i = i + 1;
        if i == n {
            c = c + 1;
            i = 0;
            n = chunk_size(chunks, c);
        }
    }
    // the headers
    let ghost c1 = c as int;
    let ghost i1 = i as int;
    let ghost buf1 = buf_str@;
    let ghost det1 = http_connection_details@;
    let mut key = String::new();
    let mut status: u8 = 0;
    loop
        invariant_except_break
            scan_headers(cs, c1, i1, buf1, Seq::empty(), 0, det1) == scan_headers(
                cs,
                c as int,
                i as int,
                buf_str@,
                key@,
                status as int,
                http_connection_details@,
            ),
        invariant
            cs == chunk_seqs(chunks@),
            cs.len() == chunks@.len(),
            total == chunks@.len(),
            n == chunk_len(cs, c as int),
            c <= chunks@.len(),
            i <= n,
            status <= 1,
        ensures
            scan_headers(cs, c1, i1, buf1, Seq::empty(), 0, det1) == (
                c as int,
                i as int,
                buf_str@,
                http_connection_details@,
            ),
        decreases chunks@.len() - c, n - i,
    {
        if i >= n {
            break;
        }
        let b = chunks[c][i];
        assert(b == cs[c as int][i as int]);
        if status == 0 {
            if b == 58u8 {
                key = buf_str;
                status = 1;
                buf_str = String::new();
            } else if b == 13u8 {
                break;
            } else if b != 10u8 {
                push_char(&mut buf_str, b as char);
            }
        } else {
            if b == 13u8 {
                http_connection_details.set_header(key, buf_str);
                status = 0;
                buf_str = String::new();
                key = String::new();
            } else if !buf_str.as_str().is_empty() || b != 32u8 {
                push_char(&mut buf_str, b as char);
            }
        }
        i = i + 1;
        if i == n {
            c = c + 1;
            i = 0;
            n = chunk_size(chunks, c);
        }
    }
    // the line ends before the body
    let ghost c2 = c as int;
    let ghost i2 = i as int;
    while i < n && (chunks[c][i] == 13u8 || chunks[c][i] == 10u8)
        invariant
            cs == chunk_seqs(chunks@),
            n == chunk_len(cs, c as int),
            c <= chunks@.len(),
            i <= n,
            cs.len() == chunks@.len(),
            total == chunks@.len(),
            skip_line_ends(cs, c2, i2) == skip_line_ends(cs, c as int, i as int),
        decreases chunks@.len() - c, n - i,
    {
        i = i + 1;
        if i == n {
            c = c + 1;
            i = 0;
            n = chunk_size(chunks, c);
        }
    }
    // the body
    let ghost c3 = c as int;
    let ghost i3 = i as int;
    let ghost buf3 = buf_str@;
    while i < n
        invariant
            cs == chunk_seqs(chunks@),
            n == chunk_len(cs, c as int),
            c <= chunks@.len(),
            i <= n,
            cs.len() == chunks@.len(),
            total == chunks@.len(),
            read_body(cs, c3, i3, buf3) == read_body(cs, c as int, i as int, buf_str@),
        decreases chunks@.len() - c, n - i,
    {
        let b = chunks[c][i];
        assert(b == cs[c as int][i as int]);
        push_char(&mut buf_str, b as char);
        i = i + 1;
        if i == n {
            c = c + 1;
            i = 0;
            n = chunk_size(chunks, c);
        }
    }
    http_connection_details.set_data(buf_str);
    Ok(http_connection_details)
}

} // verus!
