//! HTTP/1.1 as the miner speaks it: the request it sends, the response it
//! accepts (status line, chunked transfer coding, UTF-8 body), and the
//! decisions taken while a response is being read.

use vstd::prelude::*;
use vstd::string::StringSliceAdditionalSpecFns;
use vstd::utf8::{decode_utf8, encode_utf8, valid_utf8};
use crate::endpoint::Endpoint;
use crate::number::{decimal, int_error_text, parse_unsigned, parse_unsigned_chars, push_decimal};
use crate::text::{
    ascii_lower, chars_of, contains_chars, contains_seq, copy_range, find_bytes, find_char,
    find_seq, first_index_of, lines, lines_ranges, pieces, push_range, split_whitespace,
    split_whitespace_ranges, starts_with, starts_with_chars, strip_cr,
    to_ascii_lowercase_chars, trim, trim_chars,
};

verus! {

/// The message of the error that `std::str::from_utf8` reports for `bytes`.
pub uninterp spec fn utf8_error_text(bytes: Seq<u8>) -> Seq<char>;

/// Calls `std::str::from_utf8`. Trusted: it succeeds exactly on valid UTF-8,
/// and then gives the string whose encoding is `bytes`; its error's message
/// is a function of `bytes` alone, left unstated here.
#[verifier::external_body]
fn str_from_utf8<'a>(bytes: &'a [u8]) -> (r: Result<&'a str, String>)
    ensures
        r is Ok <==> valid_utf8(bytes@),
        r matches Ok(s) ==> s.spec_bytes() == bytes@,
        r matches Err(m) ==> m@ == utf8_error_text(bytes@),
{
    match std::str::from_utf8(bytes) {
        Ok(s) => Ok(s),
        Err(e) => Err(e.to_string()),
    }
}

/// The text that valid UTF-8 `bytes` encode, or the message of the error.
pub open spec fn utf8_text(bytes: Seq<u8>) -> Result<Seq<char>, Seq<char>> {
    if valid_utf8(bytes) {
        Ok(decode_utf8(bytes))
    } else {
        Err(utf8_error_text(bytes))
    }
}

/// The text that `bytes` encode, or the message of the error.
pub fn utf8_string(bytes: &[u8]) -> (r: Result<String, String>)
    ensures
        match r {
            Ok(s) => utf8_text(bytes@) == Ok::<Seq<char>, Seq<char>>(s@),
            Err(e) => utf8_text(bytes@) == Err::<Seq<char>, Seq<char>>(e@),
        },
{
    match str_from_utf8(bytes) {
        Ok(s) => {
            proof {
                vstd::utf8::encode_utf8_decode_utf8(s@);
            }
            Ok(String::from_str(s))
        },
        Err(e) => Err(e),
    }
}

/// The header block of a request, up to and including its empty line, then the body.
pub open spec fn request_text(host: Seq<char>, method: Seq<char>, path: Seq<char>, body: Seq<char>) -> Seq<char> {
    method + " "@ + path + " HTTP/1.1\r\nHost: "@ + host
        + "\r\nUser-Agent: ql-miner-multicore/0.1\r\nAccept: application/json\r\nConnection: close\r\n"@
        + (if body.len() == 0 {
        Seq::<char>::empty()
    } else {
        "Content-Type: application/json\r\nContent-Length: "@ + decimal(encode_utf8(body).len()) + "\r\n"@
    }) + "\r\n"@ + body
}

/// The body of a request, with no body read as the empty text.
pub open spec fn body_text(body: Option<&str>) -> Seq<char> {
    match body {
        Some(b) => b@,
        None => Seq::<char>::empty(),
    }
}

/// The bytes of the HTTP/1.1 request `method path` to the endpoint's host,
/// asking for JSON and for the connection to be closed, with a JSON body and
/// its byte length when the body is not empty.
pub fn build_http_request(endpoint: &Endpoint, method: &str, path: &str, body: Option<&str>) -> (r: Vec<u8>)
    ensures
        r@ == encode_utf8(request_text(endpoint.host@, method@, path@, body_text(body))),
{
    let text: &str = match body {
        Some(b) => b,
        None => "",
    };
    proof {
        reveal_strlit("");
        assert(text@ =~= body_text(body));
    }
    let mut request = String::from_str(method);
    request.append(" ");
    request.append(path);
    request.append(" HTTP/1.1\r\nHost: ");
    request.append(endpoint.host.as_str());
    request.append("\r\nUser-Agent: ql-miner-multicore/0.1\r\nAccept: application/json\r\nConnection: close\r\n");
    let ghost head = request@;
    if !text.is_empty() {
        let byte_len = text.as_bytes().len();
        request.append("Content-Type: application/json\r\nContent-Length: ");
        push_decimal(&mut request, byte_len as u64);
        request.append("\r\n");
        assert(request@ =~= head + ("Content-Type: application/json\r\nContent-Length: "@ + decimal(
            encode_utf8(text@).len(),
        ) + "\r\n"@));
    } else {
        assert(request@ =~= head + Seq::<char>::empty());
    }
    request.append("\r\n");
    request.append(text);
    assert(request@ =~= request_text(endpoint.host@, method@, path@, body_text(body)));
    request.as_str().as_bytes_vec()
}

/// A carriage return and a line feed.
pub open spec fn crlf() -> Seq<u8> {
    seq![13u8, 10u8]
}

/// `line` up to its first `;`, where chunk extensions begin.
pub open spec fn before_semicolon(line: Seq<char>) -> Seq<char> {
    match first_index_of(line, ';') {
        Some(i) => line.take(i),
        None => line,
    }
}

/// The result `prefix` followed by `r`, keeping an error as it is.
pub open spec fn after(prefix: Seq<u8>, r: Result<Seq<u8>, Seq<char>>) -> Result<Seq<u8>, Seq<char>> {
    match r {
        Ok(tail) => Ok(prefix + tail),
        Err(e) => Err(e),
    }
}

/// The size line at the front of `input`: the chunk size it declares and
/// where the line ends; or why it cannot be read. The line ends at the first
/// CR LF; the size is the hexadecimal number before any `;`, white space
/// around it ignored.
pub open spec fn chunk_header(input: Seq<u8>) -> Result<(nat, int), Seq<char>> {
    match find_seq(input, crlf()) {
        None => Err("bad chunked response: missing chunk size"@),
        Some(line_end) => {
            let size_line = input.take(line_end);
            if !valid_utf8(size_line) {
                Err("bad chunk size UTF-8: "@ + utf8_error_text(size_line))
            } else {
                let size_hex = trim(before_semicolon(decode_utf8(size_line)));
                match parse_unsigned(size_hex, 16, usize::MAX as nat) {
                    Err(kind) => Err("bad chunk size "@ + size_hex + ": "@ + int_error_text(kind)),
                    Ok(size) => Ok((size, line_end)),
                }
            }
        },
    }
}

pub proof fn lemma_chunk_header(input: Seq<u8>)
    ensures
        chunk_header(input) matches Ok((size, line_end)) ==> 0 <= line_end && line_end + 2 <= input.len() && size <= usize::MAX,
{
    crate::text::lemma_find_seq(input, crlf());
    if let Ok((size, line_end)) = chunk_header(input) {
        let size_hex = trim(before_semicolon(decode_utf8(input.take(line_end))));
        crate::number::lemma_parse_unsigned_bound(size_hex, 16, usize::MAX as nat);
    }
}

/// A body in the chunked transfer coding, decoded: each chunk is a size line
/// ended by CR LF, then that many bytes and two more; a chunk of size zero
/// ends the body.
pub open spec fn dechunk(input: Seq<u8>) -> Result<Seq<u8>, Seq<char>>
    decreases input.len(),
{
    proof {
        lemma_chunk_header(input);
    }
    match chunk_header(input) {
        Err(e) => Err(e),
        Ok((size, line_end)) => {
            let rest = input.skip(line_end + 2);
            if size == 0 {
                Ok(Seq::<u8>::empty())
            } else if rest.len() < size + 2 {
                Err("bad chunked response: chunk shorter than declared"@)
            } else {
                after(rest.take(size as int), dechunk(rest.skip(size + 2 as int)))
            }
        },
    }
}

/// Every chunk size that decoding `input` reads is below `usize::MAX - 1`, so
/// that adding the two bytes of the chunk's CR LF to it cannot overflow.
pub open spec fn chunk_sizes_fit(input: Seq<u8>) -> bool
    decreases input.len(),
{
    proof {
        lemma_chunk_header(input);
    }
    match chunk_header(input) {
        Err(_) => true,
        Ok((size, line_end)) => {
            let rest = input.skip(line_end + 2);
            if size == 0 {
                true
            } else if size + 2 > usize::MAX {
                false
            } else if rest.len() < size + 2 {
                true
            } else {
                chunk_sizes_fit(rest.skip(size + 2 as int))
            }
        },
    }
}

/// One chunk of the chunked transfer coding: its length in lower-case
/// hexadecimal, CR LF, the data, CR LF.
pub open spec fn chunk_encoding(data: Seq<u8>) -> Seq<u8> {
    encode_utf8(crate::number::hex_text(data.len())) + crlf() + data + crlf()
}

/// `chunks` in the chunked transfer coding, ended by a chunk of size zero.
pub open spec fn chunked_encoding(chunks: Seq<Seq<u8>>) -> Seq<u8>
    decreases chunks.len(),
{
    if chunks.len() == 0 {
        encode_utf8(crate::number::hex_text(0)) + crlf() + crlf()
    } else {
        chunk_encoding(chunks[0]) + chunked_encoding(chunks.drop_first())
    }
}

/// The data of `chunks`, one after another.
pub open spec fn concat_chunks(chunks: Seq<Seq<u8>>) -> Seq<u8>
    decreases chunks.len(),
{
    if chunks.len() == 0 {
        Seq::<u8>::empty()
    } else {
        chunks[0] + concat_chunks(chunks.drop_first())
    }
}

/// The encoding of a hexadecimal rendering: one byte per digit, none a carriage return.
proof fn lemma_hex_line(n: nat)
    ensures
        ({
            let text = crate::number::hex_text(n);
            let line = encode_utf8(text);
            &&& forall|j: int| 0 <= j < line.len() ==> #[trigger] line[j] != 13u8
            &&& valid_utf8(line)
            &&& decode_utf8(line) == text
        }),
{
    let text = crate::number::hex_text(n);
    let line = encode_utf8(text);
    crate::number::lemma_hex_text(n);
    assert(vstd::utf8::is_ascii_chars(text)) by {
        assert forall|i: int| 0 <= i < text.len() implies '\0' <= #[trigger] text[i] <= '\u{7f}' by {}
    }
    vstd::utf8::is_ascii_chars_encode_utf8(text);
    vstd::utf8::encode_utf8_valid_utf8(text);
    vstd::utf8::encode_utf8_decode_utf8(text);
    assert forall|j: int| 0 <= j < line.len() implies #[trigger] line[j] != 13u8 by {
        assert(line[j] == text[j] as u8);
    }
}

/// A hexadecimal rendering is its own chunk size field, and reads back as the number.
proof fn lemma_hex_size_field(n: nat)
    requires
        n <= usize::MAX,
    ensures
        trim(before_semicolon(crate::number::hex_text(n))) == crate::number::hex_text(n),
        parse_unsigned(crate::number::hex_text(n), 16, usize::MAX as nat) == Ok::<nat, crate::number::IntErrorKind>(n),
{
    let text = crate::number::hex_text(n);
    crate::number::lemma_hex_text(n);
    crate::text::lemma_first_index_of(text, ';');
    if let Some(k) = first_index_of(text, ';') {
        assert(text[k] != ';');
    }
    assert(before_semicolon(text) == text);
    assert(crate::text::trim_start(text) == text);
    assert(crate::text::trim_end(text) == text);
    crate::number::hex_reads_back(n, usize::MAX as nat);
}

/// Bytes without carriage returns, then a pattern that starts with one: the
/// first occurrence of the pattern follows those bytes.
proof fn lemma_find_after(line: Seq<u8>, p: Seq<u8>, tail: Seq<u8>)
    requires
        p.len() >= 1,
        p[0] == 13u8,
        forall|j: int| 0 <= j < line.len() ==> #[trigger] line[j] != 13u8,
    ensures
        find_seq(line + p + tail, p) == Some(line.len() as int),
        (line + p + tail).take(line.len() as int) == line,
        (line + p + tail).skip((line.len() + p.len()) as int) == tail,
{
    let input = line + p + tail;
    let h = line.len() as int;
    assert(input.subrange(h, h + p.len()) =~= p);
    assert(crate::text::occurs_at(input, p, h));
    crate::text::lemma_find_seq(input, p);
    match find_seq(input, p) {
        Some(k) => {
            if k > h {
                assert(!crate::text::occurs_at(input, p, h));
            } else if k < h {
                assert(input.subrange(k, k + p.len())[0] == input[k]);
                assert(input[k] == line[k]);
            }
        },
        None => {},
    }
    assert(input.take(h) =~= line);
    assert(input.skip((h + p.len()) as int) =~= tail);
}

/// A line without carriage returns, then CR LF: the first CR LF follows the line.
proof fn lemma_find_line_end(line: Seq<u8>, tail: Seq<u8>)
    requires
        forall|j: int| 0 <= j < line.len() ==> #[trigger] line[j] != 13u8,
    ensures
        find_seq(line + crlf() + tail, crlf()) == Some(line.len() as int),
        (line + crlf() + tail).take(line.len() as int) == line,
        (line + crlf() + tail).skip(line.len() + 2int) == tail,
{
    lemma_find_after(line, crlf(), tail);
}

/// The encoding of ASCII text without carriage returns holds no carriage return byte.
proof fn lemma_ascii_no_cr(text: Seq<char>)
    requires
        vstd::utf8::is_ascii_chars(text),
        forall|j: int| 0 <= j < text.len() ==> #[trigger] text[j] != '\r',
    ensures
        forall|j: int| 0 <= j < encode_utf8(text).len() ==> #[trigger] encode_utf8(text)[j] != 13u8,
        valid_utf8(encode_utf8(text)),
        decode_utf8(encode_utf8(text)) == text,
{
    vstd::utf8::is_ascii_chars_encode_utf8(text);
    vstd::utf8::encode_utf8_valid_utf8(text);
    vstd::utf8::encode_utf8_decode_utf8(text);
    assert forall|j: int| 0 <= j < encode_utf8(text).len() implies #[trigger] encode_utf8(text)[j] != 13u8 by {
        assert(encode_utf8(text)[j] == text[j] as u8);
    }
}

/// The first chunk of an encoding: where its size line ends, and what it holds.
proof fn lemma_size_line(n: nat, tail: Seq<u8>)
    requires
        n <= usize::MAX,
    ensures
        ({
            let text = crate::number::hex_text(n);
            let line = encode_utf8(text);
            let input = line + crlf() + tail;
            &&& find_seq(input, crlf()) == Some(line.len() as int)
            &&& input.take(line.len() as int) == line
            &&& input.skip(line.len() + 2int) == tail
            &&& valid_utf8(line)
            &&& decode_utf8(line) == text
            &&& trim(before_semicolon(text)) == text
            &&& parse_unsigned(text, 16, usize::MAX as nat) == Ok::<nat, crate::number::IntErrorKind>(n)
        }),
{
    lemma_hex_line(n);
    lemma_hex_size_field(n);
    lemma_find_line_end(encode_utf8(crate::number::hex_text(n)), tail);
}

/// A body put in the chunked transfer coding decodes back to its data, for
/// any division of the data into non-empty chunks; whatever follows the
/// chunk of size zero is ignored.
pub proof fn chunked_round_trip(chunks: Seq<Seq<u8>>, extra: Seq<u8>)
    requires
        forall|i: int| 0 <= i < chunks.len() ==> 0 < (#[trigger] chunks[i]).len() <= usize::MAX,
    ensures
        dechunk(chunked_encoding(chunks) + extra) == Ok::<Seq<u8>, Seq<char>>(concat_chunks(chunks)),
    decreases chunks.len(),
{
    if chunks.len() == 0 {
        lemma_size_line(0, crlf() + extra);
        assert(chunked_encoding(chunks) + extra =~= encode_utf8(crate::number::hex_text(0)) + crlf() + (crlf() + extra));
    } else {
        let data = chunks[0];
        let rest_chunks = chunks.drop_first();
        assert forall|i: int| 0 <= i < rest_chunks.len() implies 0 < (#[trigger] rest_chunks[i]).len() <= usize::MAX by {
            assert(rest_chunks[i] == chunks[i + 1]);
        }
        chunked_round_trip(rest_chunks, extra);
        let rest = chunked_encoding(rest_chunks) + extra;
        let tail = data + crlf() + rest;
        lemma_size_line(data.len(), tail);
        let input = chunked_encoding(chunks) + extra;
        assert(input =~= encode_utf8(crate::number::hex_text(data.len())) + crlf() + tail);
        assert(tail.take(data.len() as int) =~= data);
        assert(tail.skip(data.len() + 2int) =~= rest);
    }
}

/// A body put in the chunked transfer coding, with chunks small enough to be
/// held in memory, meets what `decode_chunked_body` asks of its input,
/// whatever follows the chunk of size zero.
pub proof fn chunked_encoding_fits(chunks: Seq<Seq<u8>>, extra: Seq<u8>)
    requires
        forall|i: int| 0 <= i < chunks.len() ==> 0 < (#[trigger] chunks[i]).len() <= usize::MAX - 2,
    ensures
        chunk_sizes_fit(chunked_encoding(chunks) + extra),
    decreases chunks.len(),
{
    if chunks.len() == 0 {
        lemma_size_line(0, crlf() + extra);
        assert(chunked_encoding(chunks) + extra =~= encode_utf8(crate::number::hex_text(0)) + crlf() + (crlf() + extra));
    } else {
        let data = chunks[0];
        let rest_chunks = chunks.drop_first();
        assert forall|i: int| 0 <= i < rest_chunks.len() implies 0 < (#[trigger] rest_chunks[i]).len() <= usize::MAX - 2 by {
            assert(rest_chunks[i] == chunks[i + 1]);
        }
        chunked_encoding_fits(rest_chunks, extra);
        let rest = chunked_encoding(rest_chunks) + extra;
        let tail = data + crlf() + rest;
        lemma_size_line(data.len(), tail);
        let input = chunked_encoding(chunks) + extra;
        assert(input =~= encode_utf8(crate::number::hex_text(data.len())) + crlf() + tail);
        assert(tail.skip(data.len() + 2int) =~= rest);
    }
}

/// A response whose header block is just an ASCII status line with a 2xx
/// code, followed by an empty line and a UTF-8 body, gives that body as text.
pub proof fn plain_response_law(status: Seq<char>, body: Seq<u8>)
    requires
        vstd::utf8::is_ascii_chars(status),
        forall|j: int| 0 <= j < status.len() ==> #[trigger] status[j] != '\r' && status[j] != '\n',
        status_code(status) matches Some(code) && 200 <= code < 300,
        valid_utf8(body),
    ensures
        response_body(encode_utf8(status) + header_end() + body) == Ok::<Seq<char>, Seq<char>>(decode_utf8(body)),
{
    let hb = encode_utf8(status);
    lemma_ascii_no_cr(status);
    lemma_find_after(hb, header_end(), body);
    assert(status.len() > 0) by {
        if status.len() == 0 {
            assert(split_whitespace(status) =~= Seq::<Seq<char>>::empty());
        }
    }
    crate::text::lemma_first_index_of(status, '\n');
    if let Some(k) = first_index_of(status, '\n') {
        assert(status[k] != '\n');
    }
    assert(lines(status) =~= seq![status]);
    assert(!announces_chunked(seq![status]));
}

/// Reads the size line at position `pos` of `input`.
fn read_chunk_header(input: &[u8], pos: usize) -> (r: Result<(usize, usize), String>)
    requires
        pos <= input@.len(),
    ensures
        match r {
            Ok((size, line_end)) => chunk_header(input@.skip(pos as int)) == Ok::<(nat, int), Seq<char>>((size as nat, line_end as int)),
            Err(e) => chunk_header(input@.skip(pos as int)) == Err::<(nat, int), Seq<char>>(e@),
        },
{
    let rest = vstd::slice::slice_subrange(input, pos, input.len());
    assert(rest@ =~= input@.skip(pos as int));
    let crlf_bytes: [u8; 2] = [13u8, 10u8];
    assert(crlf_bytes@ =~= crlf());
    let line_end = match find_bytes(rest, crlf_bytes.as_slice()) {
        None => return Err(String::from_str("bad chunked response: missing chunk size")),
        Some(i) => i,
    };
    proof {
        crate::text::lemma_find_seq(rest@, crlf());
    }
    let size_bytes = vstd::slice::slice_subrange(rest, 0, line_end);
    assert(size_bytes@ =~= rest@.take(line_end as int));
    let size_line = match str_from_utf8(size_bytes) {
        Ok(s) => s,
        Err(e) => {
            let mut m = String::from_str("bad chunk size UTF-8: ");
            m.append(e.as_str());
            return Err(m);
        },
    };
    let line_chars = chars_of(size_line);
    proof {
        vstd::utf8::encode_utf8_decode_utf8(size_line@);
    }
    let before = match find_char(&line_chars, ';') {
        Some(i) => {
            proof {
                crate::text::lemma_first_index_of(line_chars@, ';');
            }
            let b = copy_range(&line_chars, 0, i);
            assert(b@ =~= line_chars@.take(i as int));
            b
        },
        None => copy_range(&line_chars, 0, line_chars.len()),
    };
    assert(before@ =~= before_semicolon(decode_utf8(rest@.take(line_end as int))));
    let size_hex = trim_chars(&before);
    match parse_unsigned_chars(&size_hex, 16, usize::MAX as u64) {
        Ok(v) => Ok((v as usize, line_end)),
        Err(kind) => {
            let mut m = String::from_str("bad chunk size ");
            push_range(&mut m, &size_hex, 0, size_hex.len());
            m.append(": ");
            let text = kind.message();
            m.append(text.as_str());
            assert(size_hex@.subrange(0, size_hex@.len() as int) =~= size_hex@);
            Err(m)
        },
    }
}

/// Whether every chunk size that decoding `input` reads leaves room for the
/// CR LF after its data.
pub fn chunk_sizes_ok(input: &[u8]) -> (r: bool)
    ensures
        r == chunk_sizes_fit(input@),
{
    let n = input.len();
    let mut pos: usize = 0;
    assert(input@.skip(0) =~= input@);
    loop
        invariant
            n == input@.len(),
            pos <= n,
            chunk_sizes_fit(input@) == chunk_sizes_fit(input@.skip(pos as int)),
        decreases n - pos,
    {
        let (size, line_end) = match read_chunk_header(input, pos) {
            Err(_) => return true,
            Ok(h) => h,
        };
        proof {
            lemma_chunk_header(input@.skip(pos as int));
        }
        let data_start = pos + line_end + 2;
        assert(input@.skip(data_start as int) =~= input@.skip(pos as int).skip(line_end + 2));
        if size == 0 {
            return true;
        }
        if size >= usize::MAX - 1 {
            return false;
        }
        if n - data_start < size + 2 {
            return true;
        }
        assert(input@.skip(data_start as int).skip(size + 2) =~= input@.skip(data_start + size + 2));
        pos = data_start + size + 2;
    }
}

/// The header block `status CR LF header`, split into lines.
proof fn lemma_two_lines(status: Seq<char>, header: Seq<char>)
    requires
        forall|j: int| 0 <= j < status.len() ==> #[trigger] status[j] != '\r' && status[j] != '\n',
        forall|j: int| 0 <= j < header.len() ==> #[trigger] header[j] != '\r' && header[j] != '\n',
        header.len() > 0,
    ensures
        lines(status + "\r\n"@ + header) == seq![status, header],
{
    reveal_strlit("\r\n");
    let block = status + "\r\n"@ + header;
    let s = status.len() as int;
    assert(block[s] == '\r');
    assert(block[s + 1] == '\n');
    crate::text::lemma_first_index_of(block, '\n');
    match first_index_of(block, '\n') {
        Some(k) => {
            if k < s {
                assert(block[k] == status[k]);
            } else if k == s {
                assert(block[k] == '\r');
            } else if k > s + 1 {
                assert(block[s + 1] != '\n');
            }
        },
        None => {
            assert(block[s + 1] != '\n');
        },
    }
    assert(block.take(s + 1) =~= status.push('\r'));
    assert(strip_cr(block.take(s + 1)) =~= status);
    assert(block.skip(s + 2) =~= header);
    crate::text::lemma_first_index_of(header, '\n');
    if let Some(k) = first_index_of(header, '\n') {
        assert(header[k] != '\n');
    }
    assert(lines(header) =~= seq![header]);
    assert(lines(block) =~= seq![status, header]);
}

/// The encoding of the header block `status CR LF header`: its only carriage
/// return is the one after the status line, and no second one follows it.
proof fn lemma_two_line_bytes(status: Seq<char>, header: Seq<char>)
    requires
        vstd::utf8::is_ascii_chars(status),
        vstd::utf8::is_ascii_chars(header),
        forall|j: int| 0 <= j < status.len() ==> #[trigger] status[j] != '\r',
        forall|j: int| 0 <= j < header.len() ==> #[trigger] header[j] != '\r',
        header.len() > 0,
    ensures
        ({
            let hb = encode_utf8(status + "\r\n"@ + header);
            &&& valid_utf8(hb)
            &&& decode_utf8(hb) == status + "\r\n"@ + header
            &&& hb.len() > status.len() + 2
            &&& forall|j: int| 0 <= j < hb.len() && j != status.len() ==> #[trigger] hb[j] != 13u8
        }),
{
    reveal_strlit("\r\n");
    let block = status + "\r\n"@ + header;
    let s = status.len() as int;
    assert(vstd::utf8::is_ascii_chars(block)) by {
        assert forall|i: int| 0 <= i < block.len() implies '\0' <= #[trigger] block[i] <= '\u{7f}' by {
            if i < s {
                assert(block[i] == status[i]);
            } else if i >= s + 2 {
                assert(block[i] == header[i - s - 2]);
            }
        }
    }
    vstd::utf8::is_ascii_chars_encode_utf8(block);
    vstd::utf8::encode_utf8_valid_utf8(block);
    vstd::utf8::encode_utf8_decode_utf8(block);
    let hb = encode_utf8(block);
    assert forall|j: int| 0 <= j < hb.len() && j != s implies #[trigger] hb[j] != 13u8 by {
        assert(hb[j] == block[j] as u8);
        if j < s {
            assert(block[j] == status[j]);
        } else if j == s + 1 {
            assert(block[j] == '\n');
        } else {
            assert(block[j] == header[j - s - 2]);
        }
    }
}

/// Where CR LF CR LF occurs, a carriage return stands at the first and third place.
proof fn lemma_header_end_at(input: Seq<u8>, j: int)
    requires
        crate::text::occurs_at(input, header_end(), j),
    ensures
        input[j] == 13u8,
        input[j + 2] == 13u8,
{
    assert(input.subrange(j, j + 4)[0] == input[j]);
    assert(input.subrange(j, j + 4)[2] == input[j + 2]);
}

/// A header block whose only carriage return is followed by a line feed and
/// something else: the empty line that ends it is the one appended after it.
proof fn lemma_find_header_end(hb: Seq<u8>, s: int, body: Seq<u8>)
    requires
        0 <= s,
        hb.len() > s + 2,
        forall|j: int| 0 <= j < hb.len() && j != s ==> #[trigger] hb[j] != 13u8,
    ensures
        find_seq(hb + header_end() + body, header_end()) == Some(hb.len() as int),
        (hb + header_end() + body).take(hb.len() as int) == hb,
        (hb + header_end() + body).skip(hb.len() + 4int) == body,
{
    let input = hb + header_end() + body;
    let h = hb.len() as int;
    assert(input.subrange(h, h + 4) =~= header_end());
    assert(crate::text::occurs_at(input, header_end(), h));
    crate::text::lemma_find_seq(input, header_end());
    match find_seq(input, header_end()) {
        Some(k) => {
            if k > h {
                assert(!crate::text::occurs_at(input, header_end(), h));
            } else if k < h {
                lemma_header_end_at(input, k);
                assert(input[k] == hb[k]);
                assert(k == s);
                assert(input[s + 2] == hb[s + 2]);
            }
        },
        None => {},
    }
    assert(input.take(h) =~= hb);
    assert(input.skip(h + 4) =~= body);
}

/// A response whose header block is an ASCII status line with a 2xx code and
/// one header line declaring the chunked coding, followed by an empty line
/// and a chunked body, gives the chunks' data as text when it is UTF-8.
pub proof fn chunked_response_law(status: Seq<char>, header: Seq<char>, chunks: Seq<Seq<u8>>)
    requires
        vstd::utf8::is_ascii_chars(status),
        vstd::utf8::is_ascii_chars(header),
        forall|j: int| 0 <= j < status.len() ==> #[trigger] status[j] != '\r' && status[j] != '\n',
        forall|j: int| 0 <= j < header.len() ==> #[trigger] header[j] != '\r' && header[j] != '\n',
        status_code(status) matches Some(code) && 200 <= code < 300,
        is_chunked_line(header),
        forall|i: int| 0 <= i < chunks.len() ==> 0 < (#[trigger] chunks[i]).len() <= usize::MAX,
        valid_utf8(concat_chunks(chunks)),
    ensures
        response_body(encode_utf8(status + "\r\n"@ + header) + header_end() + chunked_encoding(chunks))
            == Ok::<Seq<char>, Seq<char>>(decode_utf8(concat_chunks(chunks))),
{
    assert(header.len() > 0) by {
        if header.len() == 0 {
            reveal_strlit("transfer-encoding:");
            let lower = header.map_values(|c: char| ascii_lower(c));
            assert(!starts_with(lower, "transfer-encoding:"@));
        }
    }
    lemma_two_lines(status, header);
    lemma_two_line_bytes(status, header);
    let hb = encode_utf8(status + "\r\n"@ + header);
    lemma_find_header_end(hb, status.len() as int, chunked_encoding(chunks));
    assert(announces_chunked(seq![status, header])) by {
        assert(is_chunked_line(seq![status, header][1]));
    }
    chunked_round_trip(chunks, Seq::<u8>::empty());
    assert(chunked_encoding(chunks) + Seq::<u8>::empty() =~= chunked_encoding(chunks));
}

/// Header lines, each written after a CR LF.
pub open spec fn crlf_lines(header_lines: Seq<Seq<char>>) -> Seq<char>
    decreases header_lines.len(),
{
    if header_lines.len() == 0 {
        Seq::<char>::empty()
    } else {
        "\r\n"@ + header_lines[0] + crlf_lines(header_lines.drop_first())
    }
}

/// A header line as it can stand in a header block: ASCII, not empty, and
/// with neither a carriage return nor a line feed.
pub open spec fn plain_header_line(line: Seq<char>) -> bool {
    &&& line.len() > 0
    &&& vstd::utf8::is_ascii_chars(line)
    &&& forall|j: int| 0 <= j < line.len() ==> #[trigger] line[j] != '\r' && line[j] != '\n'
}

/// A header block written as a first line followed by header lines splits
/// back into those lines; it is ASCII, and each carriage return in it is
/// followed, two places on, by something other than a carriage return.
proof fn lemma_header_block(first: Seq<char>, header_lines: Seq<Seq<char>>)
    requires
        vstd::utf8::is_ascii_chars(first),
        forall|j: int| 0 <= j < first.len() ==> #[trigger] first[j] != '\r' && first[j] != '\n',
        first.len() > 0,
        forall|i: int| 0 <= i < header_lines.len() ==> plain_header_line(#[trigger] header_lines[i]),
    ensures
        ({
            let block = first + crlf_lines(header_lines);
            &&& lines(block) == seq![first] + header_lines
            &&& vstd::utf8::is_ascii_chars(block)
            &&& forall|j: int| 0 <= j < block.len() && #[trigger] block[j] == '\r' ==> j + 2 < block.len() && block[j + 2] != '\r'
        }),
    decreases header_lines.len(),
{
    reveal_strlit("\r\n");
    let block = first + crlf_lines(header_lines);
    let f = first.len() as int;
    if header_lines.len() == 0 {
        assert(block =~= first);
        crate::text::lemma_first_index_of(first, '\n');
        if let Some(k) = first_index_of(first, '\n') {
            assert(first[k] != '\n');
        }
        assert(lines(first) =~= seq![first]);
        assert(seq![first] + header_lines =~= seq![first]);
    } else {
        let next = header_lines[0];
        let rest = header_lines.drop_first();
        assert forall|i: int| 0 <= i < rest.len() implies plain_header_line(#[trigger] rest[i]) by {
            assert(rest[i] == header_lines[i + 1]);
        }
        assert(plain_header_line(header_lines[0]));
        lemma_header_block(next, rest);
        let tail = next + crlf_lines(rest);
        assert(block =~= first + "\r\n"@ + tail);
        assert(block[f] == '\r');
        assert(block[f + 1] == '\n');
        crate::text::lemma_first_index_of(block, '\n');
        match first_index_of(block, '\n') {
            Some(k) => {
                if k < f {
                    assert(block[k] == first[k]);
                } else if k == f {
                    assert(block[k] == '\r');
                } else if k > f + 1 {
                    assert(block[f + 1] != '\n');
                }
            },
            None => {
                assert(block[f + 1] != '\n');
            },
        }
        assert(block.take(f + 1) =~= first.push('\r'));
        assert(strip_cr(block.take(f + 1)) =~= first);
        assert(block.skip(f + 2) =~= tail);
        assert(lines(block) == seq![first] + lines(tail));
        assert(seq![first] + (seq![next] + rest) =~= seq![first] + header_lines);
        assert(vstd::utf8::is_ascii_chars(block)) by {
            assert forall|i: int| 0 <= i < block.len() implies '\0' <= #[trigger] block[i] <= '\u{7f}' by {
                if i < f {
                    assert(block[i] == first[i]);
                } else if i >= f + 2 {
                    assert(block[i] == tail[i - f - 2]);
                }
            }
        }
        assert forall|j: int| 0 <= j < block.len() && #[trigger] block[j] == '\r' implies j + 2 < block.len() && block[j + 2] != '\r' by {
            if j < f {
                assert(block[j] == first[j]);
            } else if j == f {
                assert(block[f + 2] == tail[0]);
                assert(tail[0] == next[0]);
            } else if j == f + 1 {
            } else {
                assert(block[j] == tail[j - f - 2]);
                assert(block[j + 2] == tail[j - f]);
            }
        }
    }
}

/// A header block whose every carriage return is followed, two places on, by
/// something else: the empty line that ends it is the one appended after it.
proof fn lemma_find_block_end(hb: Seq<u8>, body: Seq<u8>)
    requires
        forall|j: int| 0 <= j < hb.len() && #[trigger] hb[j] == 13u8 ==> j + 2 < hb.len() && hb[j + 2] != 13u8,
    ensures
        find_seq(hb + header_end() + body, header_end()) == Some(hb.len() as int),
        (hb + header_end() + body).take(hb.len() as int) == hb,
        (hb + header_end() + body).skip(hb.len() + 4int) == body,
{
    let input = hb + header_end() + body;
    let h = hb.len() as int;
    assert(input.subrange(h, h + 4) =~= header_end());
    assert(crate::text::occurs_at(input, header_end(), h));
    crate::text::lemma_find_seq(input, header_end());
    match find_seq(input, header_end()) {
        Some(k) => {
            if k > h {
                assert(!crate::text::occurs_at(input, header_end(), h));
            } else if k < h {
                lemma_header_end_at(input, k);
                assert(input[k] == hb[k]);
                assert(input[k + 2] == hb[k + 2]);
            }
        },
        None => {},
    }
    assert(input.take(h) =~= hb);
    assert(input.skip(h + 4) =~= body);
}

/// The bytes of a header block, and where its lines and its end are found.
proof fn lemma_header_block_bytes(status: Seq<char>, header_lines: Seq<Seq<char>>, body: Seq<u8>)
    requires
        vstd::utf8::is_ascii_chars(status),
        forall|j: int| 0 <= j < status.len() ==> #[trigger] status[j] != '\r' && status[j] != '\n',
        status.len() > 0,
        forall|i: int| 0 <= i < header_lines.len() ==> plain_header_line(#[trigger] header_lines[i]),
    ensures
        ({
            let block = status + crlf_lines(header_lines);
            let hb = encode_utf8(block);
            let input = hb + header_end() + body;
            &&& find_seq(input, header_end()) == Some(hb.len() as int)
            &&& input.take(hb.len() as int) == hb
            &&& input.skip(hb.len() + 4int) == body
            &&& valid_utf8(hb)
            &&& lines(decode_utf8(hb)) == seq![status] + header_lines
        }),
{
    lemma_header_block(status, header_lines);
    let block = status + crlf_lines(header_lines);
    vstd::utf8::is_ascii_chars_encode_utf8(block);
    vstd::utf8::encode_utf8_valid_utf8(block);
    vstd::utf8::encode_utf8_decode_utf8(block);
    let hb = encode_utf8(block);
    assert forall|j: int| 0 <= j < hb.len() && #[trigger] hb[j] == 13u8 implies j + 2 < hb.len() && hb[j + 2] != 13u8 by {
        assert(hb[j] == block[j] as u8);
        assert(block[j] == '\r');
        assert(hb[j + 2] == block[j + 2] as u8);
    }
    lemma_find_block_end(hb, body);
}

/// A 2xx response whose header block holds, after the status line, any
/// number of header lines of which any one, wherever it stands, declares the
/// chunked coding, gives the data of the chunked body as text when it is UTF-8.
pub proof fn chunked_anywhere_law(
    status: Seq<char>,
    header_lines: Seq<Seq<char>>,
    k: int,
    chunks: Seq<Seq<u8>>,
)
    requires
        vstd::utf8::is_ascii_chars(status),
        forall|j: int| 0 <= j < status.len() ==> #[trigger] status[j] != '\r' && status[j] != '\n',
        status_code(status) matches Some(code) && 200 <= code < 300,
        forall|i: int| 0 <= i < header_lines.len() ==> plain_header_line(#[trigger] header_lines[i]),
        0 <= k < header_lines.len(),
        is_chunked_line(header_lines[k]),
        forall|i: int| 0 <= i < chunks.len() ==> 0 < (#[trigger] chunks[i]).len() <= usize::MAX,
        valid_utf8(concat_chunks(chunks)),
    ensures
        response_body(encode_utf8(status + crlf_lines(header_lines)) + header_end() + chunked_encoding(chunks))
            == Ok::<Seq<char>, Seq<char>>(decode_utf8(concat_chunks(chunks))),
{
    assert(status.len() > 0) by {
        if status.len() == 0 {
            assert(split_whitespace(status) =~= Seq::<Seq<char>>::empty());
        }
    }
    lemma_header_block_bytes(status, header_lines, chunked_encoding(chunks));
    let all = seq![status] + header_lines;
    assert(all[k + 1] == header_lines[k]);
    assert(announces_chunked(all));
    chunked_round_trip(chunks, Seq::<u8>::empty());
    assert(chunked_encoding(chunks) + Seq::<u8>::empty() =~= chunked_encoding(chunks));
}

/// A 2xx response whose header lines after the status line none of them
/// declare the chunked coding gives its body as it stands, as text when it
/// is UTF-8, whatever it looks like.
pub proof fn unchunked_response_law(status: Seq<char>, header_lines: Seq<Seq<char>>, body: Seq<u8>)
    requires
        vstd::utf8::is_ascii_chars(status),
        forall|j: int| 0 <= j < status.len() ==> #[trigger] status[j] != '\r' && status[j] != '\n',
        status_code(status) matches Some(code) && 200 <= code < 300,
        forall|i: int| 0 <= i < header_lines.len() ==> plain_header_line(#[trigger] header_lines[i]),
        forall|i: int| 0 <= i < header_lines.len() ==> !is_chunked_line(#[trigger] header_lines[i]),
        valid_utf8(body),
    ensures
        response_body(encode_utf8(status + crlf_lines(header_lines)) + header_end() + body)
            == Ok::<Seq<char>, Seq<char>>(decode_utf8(body)),
{
    assert(status.len() > 0) by {
        if status.len() == 0 {
            assert(split_whitespace(status) =~= Seq::<Seq<char>>::empty());
        }
    }
    lemma_header_block_bytes(status, header_lines, body);
    let all = seq![status] + header_lines;
    assert(!announces_chunked(all)) by {
        if announces_chunked(all) {
            let k = choose|k: int| 1 <= k < all.len() && #[trigger] is_chunked_line(all[k]);
            assert(all[k] == header_lines[k - 1]);
        }
    }
}

/// Decodes a body in the chunked transfer coding.
pub fn decode_chunked_body(input: &[u8]) -> (r: Result<Vec<u8>, String>)
    requires
        chunk_sizes_fit(input@),
    ensures
        match r {
            Ok(v) => dechunk(input@) == Ok::<Seq<u8>, Seq<char>>(v@),
            Err(e) => dechunk(input@) == Err::<Seq<u8>, Seq<char>>(e@),
        },
{
    let n = input.len();
    let mut out: Vec<u8> = Vec::new();
    let mut pos: usize = 0;
    assert(input@.skip(0) =~= input@);
    assert(after(Seq::<u8>::empty(), dechunk(input@)) =~= dechunk(input@));
    loop
        invariant
            n == input@.len(),
            pos <= n,
            chunk_sizes_fit(input@.skip(pos as int)),
            dechunk(input@) == after(out@, dechunk(input@.skip(pos as int))),
        decreases n - pos,
    {
        let ghost cur = input@.skip(pos as int);
        let (size, line_end) = match read_chunk_header(input, pos) {
            Err(e) => return Err(e),
            Ok(h) => h,
        };
        proof {
            lemma_chunk_header(cur);
        }
        let data_start = pos + line_end + 2;
        let ghost rest2 = cur.skip(line_end + 2);
        assert(input@.skip(data_start as int) =~= rest2);
        if size == 0 {
            assert(out@ + Seq::<u8>::empty() =~= out@);
            return Ok(out);
        }
        if n - data_start < size + 2 {
            return Err(String::from_str("bad chunked response: chunk shorter than declared"));
        }
        let ghost old_out = out@;
        let chunk = vstd::slice::slice_subrange(input, data_start, data_start + size);
        out.extend_from_slice(chunk);
        assert(out@ =~= old_out + rest2.take(size as int));
        assert(rest2.skip(size + 2) =~= input@.skip(data_start + size + 2));
        assert(dechunk(cur) == after(rest2.take(size as int), dechunk(rest2.skip(size + 2))));
        proof {
            match dechunk(rest2.skip(size + 2)) {
                Ok(t) => {
                    assert(old_out + (rest2.take(size as int) + t) =~= out@ + t);
                },
                Err(_) => {},
            }
        }
        pos = data_start + size + 2;
    }
}

/// The empty line that ends the header block: CR LF CR LF.
pub open spec fn header_end() -> Seq<u8> {
    seq![13u8, 10u8, 13u8, 10u8]
}

/// A header line announcing the chunked transfer coding, in any ASCII case.
pub open spec fn is_chunked_line(line: Seq<char>) -> bool {
    let lower = line.map_values(|c: char| ascii_lower(c));
    starts_with(lower, "transfer-encoding:"@) && contains_seq(lower, "chunked"@)
}

/// The status code in a status line: its second white-space separated word, as a `u16`.
pub open spec fn status_code(status: Seq<char>) -> Option<u16> {
    let words = split_whitespace(status);
    if words.len() >= 2 {
        match parse_unsigned(words[1], 10, 0xffff) {
            Ok(v) => Some(v as u16),
            Err(_) => None,
        }
    } else {
        None
    }
}

/// Some header line after the status line announces the chunked coding.
pub open spec fn announces_chunked(header_lines: Seq<Seq<char>>) -> bool {
    exists|k: int| 1 <= k < header_lines.len() && #[trigger] is_chunked_line(header_lines[k])
}

/// Every chunk size in a response's body leaves room for its CR LF, when the
/// body is chunked and the response is otherwise readable that far.
pub open spec fn response_fits(response: Seq<u8>) -> bool {
    match find_seq(response, header_end()) {
        None => true,
        Some(split) => match header_facts(response.take(split)) {
            Ok((_, true)) => chunk_sizes_fit(response.skip(split + 4)),
            _ => true,
        },
    }
}

/// What the header block of a response says: its status code, and whether
/// some header line after the status line declares the body chunked; or why
/// the block is unusable (not UTF-8, or no status code in its first line).
pub open spec fn header_facts(header_bytes: Seq<u8>) -> Result<(u16, bool), Seq<char>> {
    if !valid_utf8(header_bytes) {
        Err("response headers are not UTF-8: "@ + utf8_error_text(header_bytes))
    } else {
        let header_lines = lines(decode_utf8(header_bytes));
        let status = if header_lines.len() > 0 {
            header_lines[0]
        } else {
            Seq::<char>::empty()
        };
        match status_code(status) {
            None => Err("invalid HTTP status line: "@ + status),
            Some(code) => Ok((code, announces_chunked(header_lines))),
        }
    }
}

/// The body after the header block, decoded from the chunked coding when
/// `chunked`, as UTF-8 text; reported as an error unless `code` is 2xx.
pub open spec fn body_for(code: u16, chunked: bool, raw: Seq<u8>) -> Result<Seq<char>, Seq<char>> {
    let body = if chunked {
        dechunk(raw)
    } else {
        Ok(raw)
    };
    match body {
        Err(e) => Err(e),
        Ok(b) => match utf8_text(b) {
            Err(e) => Err("response body is not UTF-8: "@ + e),
            Ok(text) => if 200 <= code < 300 {
                Ok(text)
            } else {
                Err("HTTP "@ + decimal(code as nat) + ": "@ + text)
            },
        },
    }
}

/// The body of an HTTP response with a 2xx status, as text; or what is wrong.
/// The header block ends at the first empty line (CR LF CR LF).
pub open spec fn response_body(response: Seq<u8>) -> Result<Seq<char>, Seq<char>> {
    match find_seq(response, header_end()) {
        None => Err("invalid HTTP response: "@ + decimal(response.len()) + " bytes"@),
        Some(split) => match header_facts(response.take(split)) {
            Err(e) => Err(e),
            Ok((code, chunked)) => body_for(code, chunked, response.skip(split + 4)),
        },
    }
}

/// The status code in a status line.
pub fn status_code_of(status: &[char]) -> (r: Option<u16>)
    ensures
        r == status_code(status@),
{
    let words = split_whitespace_ranges(status);
    if words.len() < 2 {
        return None;
    }
    let (a, b) = words[1];
    assert(pieces(status@, words@)[1] == status@.subrange(a as int, b as int));
    let word = copy_range(status, a, b);
    match parse_unsigned_chars(&word, 10, 0xffff) {
        Ok(v) => Some(v as u16),
        Err(_) => None,
    }
}

/// Whether a header line announces the chunked transfer coding.
pub fn is_chunked_header(line: &[char]) -> (r: bool)
    ensures
        r == is_chunked_line(line@),
{
    let lower = to_ascii_lowercase_chars(line);
    let name = chars_of("transfer-encoding:");
    let coding = chars_of("chunked");
    starts_with_chars(&lower, &name) && contains_chars(&lower, &coding)
}

/// Whether some line after the first, among those `ranges` delimits in `text`,
/// declares the chunked coding.
fn any_chunked_line(text: &[char], ranges: &Vec<(usize, usize)>) -> (r: bool)
    requires
        crate::text::ranges_within(ranges@, text@.len() as int),
    ensures
        r == announces_chunked(pieces(text@, ranges@)),
{
    let ghost header_lines = pieces(text@, ranges@);
    let mut chunked = false;
    let mut k: usize = 1;
    while k < ranges.len()
        invariant
            1 <= k,
            k <= ranges@.len() || ranges@.len() == 0,
            header_lines == pieces(text@, ranges@),
            crate::text::ranges_within(ranges@, text@.len() as int),
            chunked <==> exists|j: int| 1 <= j < k && j < header_lines.len() && #[trigger] is_chunked_line(header_lines[j]),
        decreases ranges@.len() - k,
    {
        let (a, b) = ranges[k];
        assert(header_lines[k as int] == text@.subrange(a as int, b as int));
        let line = copy_range(text, a, b);
        if is_chunked_header(&line) {
            chunked = true;
        }
        k = k + 1;
    }
    proof {
        if chunked {
            let j = choose|j: int| 1 <= j < k && j < header_lines.len() && #[trigger] is_chunked_line(header_lines[j]);
            assert(1 <= j < header_lines.len() && is_chunked_line(header_lines[j]));
        }
    }
    chunked
}

/// The status code of a header block and whether it declares the body chunked.
pub fn analyze_headers(header_bytes: &[u8]) -> (r: Result<(u16, bool), String>)
    ensures
        match r {
            Ok(facts) => header_facts(header_bytes@) == Ok::<(u16, bool), Seq<char>>(facts),
            Err(e) => header_facts(header_bytes@) == Err::<(u16, bool), Seq<char>>(e@),
        },
{
    let headers = match str_from_utf8(header_bytes) {
        Ok(s) => s,
        Err(e) => {
            let mut m = String::from_str("response headers are not UTF-8: ");
            m.append(e.as_str());
            return Err(m);
        },
    };
    proof {
        vstd::utf8::encode_utf8_decode_utf8(headers@);
    }
    let header_chars = chars_of(headers);
    let line_ranges = lines_ranges(&header_chars);
    let ghost header_lines = lines(header_chars@);
    let status = if line_ranges.len() > 0 {
        let (a, b) = line_ranges[0];
        assert(pieces(header_chars@, line_ranges@)[0] == header_chars@.subrange(a as int, b as int));
        copy_range(&header_chars, a, b)
    } else {
        Vec::new()
    };
    assert(status@ =~= (if header_lines.len() > 0 {
        header_lines[0]
    } else {
        Seq::<char>::empty()
    }));
    let code = match status_code_of(&status) {
        Some(c) => c,
        None => {
            let mut m = String::from_str("invalid HTTP status line: ");
            push_range(&mut m, &status, 0, status.len());
            assert(status@.subrange(0, status@.len() as int) =~= status@);
            return Err(m);
        },
    };
    let chunked = any_chunked_line(&header_chars, &line_ranges);
    Ok((code, chunked))
}

/// The body after the header block as text, given what the headers said.
pub fn response_text(code: u16, chunked: bool, raw: &[u8]) -> (r: Result<String, String>)
    requires
        chunked ==> chunk_sizes_fit(raw@),
    ensures
        match r {
            Ok(body) => body_for(code, chunked, raw@) == Ok::<Seq<char>, Seq<char>>(body@),
            Err(e) => body_for(code, chunked, raw@) == Err::<Seq<char>, Seq<char>>(e@),
        },
{
    let body_bytes: Vec<u8> = if chunked {
        decode_chunked_body(raw)?
    } else {
        vstd::slice::slice_to_vec(raw)
    };
    let body = match utf8_string(body_bytes.as_slice()) {
        Ok(b) => b,
        Err(e) => {
            let mut m = String::from_str("response body is not UTF-8: ");
            m.append(e.as_str());
            return Err(m);
        },
    };
    if !(200 <= code && code < 300) {
        let mut m = String::from_str("HTTP ");
        push_decimal(&mut m, code as u64);
        m.append(": ");
        m.append(body.as_str());
        return Err(m);
    }
    Ok(body)
}

/// Extracts the body of an HTTP response, which must have a 2xx status.
pub fn parse_http_response(response: &[u8]) -> (r: Result<String, String>)
    requires
        response_fits(response@),
    ensures
        match r {
            Ok(body) => response_body(response@) == Ok::<Seq<char>, Seq<char>>(body@),
            Err(e) => response_body(response@) == Err::<Seq<char>, Seq<char>>(e@),
        },
{
    let n = response.len();
    let end_bytes: [u8; 4] = [13u8, 10u8, 13u8, 10u8];
    assert(end_bytes@ =~= header_end());
    let split = match find_bytes(response, end_bytes.as_slice()) {
        None => {
            let mut m = String::from_str("invalid HTTP response: ");
            push_decimal(&mut m, n as u64);
            m.append(" bytes");
            return Err(m);
        },
        Some(i) => i,
    };
    proof {
        crate::text::lemma_find_seq(response@, header_end());
    }
    let header_bytes = vstd::slice::slice_subrange(response, 0, split);
    assert(header_bytes@ =~= response@.take(split as int));
    let (code, chunked) = analyze_headers(header_bytes)?;
    let raw = vstd::slice::slice_subrange(response, split + 4, n);
    assert(raw@ =~= response@.skip(split + 4));
    response_text(code, chunked, raw)
}

/// What one read from the connection gave.
pub enum ReadEvent {
    /// These bytes arrived; none means the peer closed the stream.
    Data(Vec<u8>),
    /// The read failed; whether the failure is an unexpected end of stream,
    /// and the error's message.
    Failure(bool, String),
}

/// What to do after a read.
pub enum ReadStep {
    /// Read again.
    Continue,
    /// The response is complete.
    Finished,
    /// Give up with this message.
    Failed(String),
}

/// Whether every chunk size in the response's body leaves room for its CR LF.
pub fn response_within_limits(response: &[u8]) -> (r: bool)
    ensures
        r == response_fits(response@),
{
    let n = response.len();
    let end_bytes: [u8; 4] = [13u8, 10u8, 13u8, 10u8];
    assert(end_bytes@ =~= header_end());
    let split = match find_bytes(response, end_bytes.as_slice()) {
        None => return true,
        Some(i) => i,
    };
    proof {
        crate::text::lemma_find_seq(response@, header_end());
    }
    let header_bytes = vstd::slice::slice_subrange(response, 0, split);
    assert(header_bytes@ =~= response@.take(split as int));
    match analyze_headers(header_bytes) {
        Ok((_, true)) => {
            let raw = vstd::slice::slice_subrange(response, split + 4, n);
            assert(raw@ =~= response@.skip(split + 4));
            chunk_sizes_ok(raw)
        },
        _ => true,
    }
}

/// Takes one read's outcome into account while a response is being read:
/// bytes are appended and reading goes on; the end of the stream completes the
/// response, and so does an unexpected end of stream once some bytes arrived;
/// any other failure is reported as `transport read: message`.
pub fn read_response(response: &mut Vec<u8>, event: ReadEvent, transport: &str) -> (r: ReadStep)
    ensures
        match event {
            ReadEvent::Data(bytes) => if bytes@.len() == 0 {
                r is Finished && final(response)@ == old(response)@
            } else {
                r is Continue && final(response)@ == old(response)@ + bytes@
            },
            ReadEvent::Failure(unexpected_eof, message) => final(response)@ == old(response)@ && if unexpected_eof && old(response)@.len() > 0 {
                r is Finished
            } else {
                r matches ReadStep::Failed(m) && m@ == transport@ + " read: "@ + message@
            },
        },
{
    match event {
        ReadEvent::Data(bytes) => {
            if bytes.len() == 0 {
                ReadStep::Finished
            } else {
                response.extend_from_slice(bytes.as_slice());
                assert(response@ =~= old(response)@ + bytes@);
                ReadStep::Continue
            }
        },
        ReadEvent::Failure(unexpected_eof, message) => {
            if unexpected_eof && response.len() > 0 {
                ReadStep::Finished
            } else {
                let mut m = String::from_str(transport);
                m.append(" read: ");
                m.append(message.as_str());
                ReadStep::Failed(m)
            }
        },
    }
}

} // verus!