use vstd::prelude::*;
use crate::bytes::{copy_range, extend_bytes};
use crate::errors::FetchError;
use crate::header::{
    all_digits, content_length_of, dec_val, find_terminator, has_terminator, is_header_block_of,
    lemma_header_block_unique, parse_content_length, response_header_of, terminator_at,
    LengthHeader, DIGIT0,
};
use crate::stream::ByteStream;
use vstd::string::StringSliceAdditionalSpecFns;

verus! {

/// The reader split the stream bytes `c` into the header block `h` and a
/// body `b`: `b` is a prefix of what follows `h`; when a content length
/// `n` is declared, `b` is exactly the first `min(n, delivered)` bytes
/// after the headers — the declared length, or everything the stream
/// still held if that ran out first.
pub open spec fn valid_response_split(h: Seq<u8>, b: Seq<u8>, c: Seq<u8>) -> bool {
    &&& is_header_block_of(h, c)
    &&& ({
        let rest = c.skip(h.len() as int);
        &&& b.len() <= rest.len()
        &&& b == rest.take(b.len() as int)
        &&& match content_length_of(h) {
            LengthHeader::Found(n) => b.len() == vstd::math::min(n as int, rest.len() as int),
            _ => true,
        }
    })
}

/// Accumulates reads until the header terminator has arrived; hands back
/// the buffer and the index just past the terminator.
#[verifier::loop_isolation(false)]
fn read_until_terminator<S: ByteStream>(stream: &mut S) -> (r: Result<(Vec<u8>, usize), FetchError>)
    ensures
        match r {
            Ok(p) => {
                &&& p.0@.len() <= old(stream).contents().len()
                &&& p.0@ == old(stream).contents().take(p.0@.len() as int)
                &&& final(stream).contents() == old(stream).contents().skip(p.0@.len() as int)
                &&& 4 <= p.1 <= p.0@.len()
                &&& terminator_at(p.0@, p.1 - 4)
                &&& forall|j: int| 0 <= j < p.1 - 4 ==> !terminator_at(p.0@, j)
            },
            Err(e) => {
                &&& (e == FetchError::UnexpectedEof || e == FetchError::Io)
                &&& (e == FetchError::UnexpectedEof ==> !has_terminator(old(stream).contents()))
            },
        },
{
    let ghost c = stream.contents();
    let mut buf: Vec<u8> = Vec::new();
    loop
        invariant
            buf@.len() <= c.len(),
            buf@ == c.take(buf@.len() as int),
            stream.contents() == c.skip(buf@.len() as int),
            !has_terminator(buf@),
        decreases c.len() - buf@.len(),
    {
        let chunk = match stream.read_some(4096) {
            Ok(v) => v,
            Err(e) => {
                return Err(e);
            },
        };
        if chunk.len() == 0 {
            proof {
                assert(c.skip(buf@.len() as int).len() == 0);
                assert(buf@ =~= c);
            }
            return Err(FetchError::UnexpectedEof);
        }
        extend_bytes(&mut buf, chunk.as_slice());
        proof {
            assert(buf@ =~= c.take(buf@.len() as int));
            assert(stream.contents() =~= c.skip(buf@.len() as int));
        }
        match find_terminator(&buf) {
            Some(p) => {
                let bl = buf.len();
                proof {
                    assert(p + 4 <= bl);
                }
                return Ok((buf, p + 4));
            },
            None => {},
        }
    }
}

/// Keeps reading until the body holds the declared `n` bytes or the
/// stream cleanly ends; `rest` is the byte sequence the body is drawn
/// from. A body cut short by the end of the stream is not an error.
#[verifier::loop_isolation(false)]
fn fill_body<S: ByteStream>(
    stream: &mut S,
    body: &mut Vec<u8>,
    n: usize,
    Ghost(rest): Ghost<Seq<u8>>,
) -> (r: Result<(), FetchError>)
    requires
        old(body)@.len() <= n,
        old(body)@.len() <= rest.len(),
        old(body)@ == rest.take(old(body)@.len() as int),
        old(stream).contents() == rest.skip(old(body)@.len() as int),
    ensures
        match r {
            Ok(u) => {
                &&& final(body)@ == rest.take(final(body)@.len() as int)
                &&& final(body)@.len() <= n
                &&& final(body)@.len() <= rest.len()
                &&& final(body)@.len() >= n || final(body)@ == rest
            },
            Err(e) => e == FetchError::Io,
        },
{
    let mut remaining: usize = n - body.len();
    while remaining > 0
        invariant
            remaining == n - body@.len(),
            body@.len() <= n,
            body@ == rest.take(body@.len() as int),
            body@.len() <= rest.len(),
            stream.contents() == rest.skip(body@.len() as int),
        decreases stream.contents().len(),
    {
        let want: usize = if remaining < 4096 {
            remaining
        } else {
            4096
        };
        let chunk = match stream.read_some(want) {
            Ok(v) => v,
            Err(e) => {
                return Err(e);
            },
        };
        if chunk.len() == 0 {
            proof {
                assert(stream.contents().len() == 0);
                assert(body@.len() == rest.len());
                assert(body@ =~= rest);
            }
            return Ok(());
        }
        extend_bytes(body, chunk.as_slice());
        remaining = remaining - chunk.len();
        proof {
            assert(body@ =~= rest.take(body@.len() as int));
            assert(stream.contents() =~= rest.skip(body@.len() as int));
        }
    }
    Ok(())
}

/// Reads one response off `stream`: every byte up to and including the
/// four-byte header terminator becomes the header block; then, if the
/// headers declare a content length, body bytes are read until that many
/// have arrived or the stream cleanly ends, whichever is first. A short
/// body is not an error; a stream that closes before the terminator is.
#[verifier::loop_isolation(false)]
pub fn read_response<S: ByteStream>(stream: &mut S) -> (r: Result<(Vec<u8>, Vec<u8>), FetchError>)
    ensures
        match r {
            Ok(p) => p.0@ == response_header_of(old(stream).contents()) && valid_response_split(
                p.0@,
                p.1@,
                old(stream).contents(),
            ),
            Err(e) => {
                &&& (e == FetchError::UnexpectedEof || e == FetchError::Io)
                &&& (e == FetchError::UnexpectedEof ==> !has_terminator(old(stream).contents()))
            },
        },
{
    let ghost c = stream.contents();
    let (buf, hdr_end) = match read_until_terminator(stream) {
        Ok(p) => p,
        Err(e) => {
            return Err(e);
        },
    };
    let headers = copy_range(&buf, 0, hdr_end);
    let mut body = copy_range(&buf, hdr_end, buf.len());
    let ghost rest = c.skip(hdr_end as int);
    proof {
        assert(headers@ =~= c.take(hdr_end as int));
        assert(terminator_at(headers@, hdr_end - 4));
        assert forall|j: int| 0 <= j < hdr_end - 4 implies !terminator_at(headers@, j) by {
            if terminator_at(headers@, j) {
                assert(terminator_at(buf@, j));
            }
        }
        assert(is_header_block_of(headers@, c));
        assert(body@.len() <= rest.len());
        assert(body@ =~= rest.take(body@.len() as int));
        assert(stream.contents() =~= rest.skip(body@.len() as int));
    }
    let declared = parse_content_length(&headers);
    match declared {
        LengthHeader::Found(n) => {
            if body.len() < n {
                match fill_body(stream, &mut body, n, Ghost(rest)) {
                    Ok(u) => {},
                    Err(e) => {
                        return Err(e);
                    },
                }
                proof {
                    if body@.len() < n {
                        // the stream ran out: the body is everything it held
                        assert(body@ == rest);
                    }
                    assert(valid_response_split(headers@, body@, c));
                }
            } else {
                // the reads that located the terminator may have delivered
                // more than the declared length: cap the body at `n` bytes
                body.truncate(n);
                proof {
                    assert(body@ =~= rest.take(n as int));
                    assert(valid_response_split(headers@, body@, c));
                }
            }
        },
        LengthHeader::Missing => {
            proof {
                assert(valid_response_split(headers@, body@, c));
            }
        },
        LengthHeader::Malformed => {
            proof {
                assert(valid_response_split(headers@, body@, c));
            }
        },
    }
    proof {
        lemma_header_block_unique(headers@, c);
    }
    Ok((headers, body))
}

/// The decimal digits of `n`, most significant first, no leading zero.
pub fn format_usize(n: usize) -> (v: Vec<u8>)
    ensures
        v@.len() >= 1,
        all_digits(v@),
        dec_val(v@) == n,
        v@[0] != DIGIT0 || v@.len() == 1,
    decreases n,
{
    if n < 10 {
        let mut v: Vec<u8> = Vec::new();
        v.push((n as u8) + DIGIT0);
        proof {
            assert(v@.drop_last() =~= Seq::<u8>::empty());
            assert(dec_val(Seq::<u8>::empty()) == 0);
        }
        v
    } else {
        let mut v = format_usize(n / 10);
        let ghost prev = v@;
        let d: u8 = ((n % 10) as u8) + DIGIT0;
        v.push(d);
        proof {
            assert(v@.drop_last() =~= prev);
            assert(n / 10 * 10 + n % 10 == n) by (nonlinear_arith);
            assert(dec_val(v@) == n);
            if prev.len() == 1 && prev[0] == DIGIT0 {
                assert(prev.drop_last() =~= Seq::<u8>::empty());
                assert(dec_val(Seq::<u8>::empty()) == 0);
                assert(dec_val(prev) == 0);
            }
        }
        v
    }
}

/// The unranged probe request for the whole resource.
pub open spec fn probe_request_bytes(addr: Seq<u8>) -> Seq<u8> {
    "GET / HTTP/1.1\r\nHost: ".spec_bytes() + addr + "\r\nConnection: close\r\n\r\n".spec_bytes()
}

/// Builds the probe request sent to learn the resource size.
pub fn build_probe_request(server_addr: &str) -> (r: Vec<u8>)
    ensures
        r@ == probe_request_bytes(server_addr.spec_bytes()),
{
    let mut v: Vec<u8> = Vec::new();
    extend_bytes(&mut v, "GET / HTTP/1.1\r\nHost: ".as_bytes());
    extend_bytes(&mut v, server_addr.as_bytes());
    extend_bytes(&mut v, "\r\nConnection: close\r\n\r\n".as_bytes());
    v
}

/// The ranged request for bytes `start` through `end`, where `sd` and
/// `ed` are the decimal digits of the two bounds.
pub open spec fn range_request_bytes(addr: Seq<u8>, sd: Seq<u8>, ed: Seq<u8>) -> Seq<u8> {
    "GET / HTTP/1.1\r\nHost: ".spec_bytes() + addr + "\r\nRange: bytes=".spec_bytes() + sd + seq![
        45u8,
    ] + ed + "\r\nConnection: close\r\n\r\n".spec_bytes()
}

/// Builds the ranged request naming bytes `start` through `end`.
pub fn build_range_request(server_addr: &str, start: usize, end: usize) -> (r: Vec<u8>)
    ensures
        exists|sd: Seq<u8>, ed: Seq<u8>|
            {
                &&& all_digits(sd) && sd.len() >= 1 && dec_val(sd) == start && (sd[0] != DIGIT0
                    || sd.len() == 1)
                &&& all_digits(ed) && ed.len() >= 1 && dec_val(ed) == end && (ed[0] != DIGIT0
                    || ed.len() == 1)
                &&& r@ == #[trigger] range_request_bytes(server_addr.spec_bytes(), sd, ed)
            },
{
    let mut v: Vec<u8> = Vec::new();
    extend_bytes(&mut v, "GET / HTTP/1.1\r\nHost: ".as_bytes());
    extend_bytes(&mut v, server_addr.as_bytes());
    extend_bytes(&mut v, "\r\nRange: bytes=".as_bytes());
    let sd = format_usize(start);
    extend_bytes(&mut v, sd.as_slice());
    v.push(45);
    let ed = format_usize(end);
    extend_bytes(&mut v, ed.as_slice());
    extend_bytes(&mut v, "\r\nConnection: close\r\n\r\n".as_bytes());
    proof {
        assert(v@ =~= range_request_bytes(server_addr.spec_bytes(), sd@, ed@));
    }
    v
}

/// Sends the probe request and reads the declared size of the resource
/// out of the response headers: the run cannot start without it, so a
/// missing header is a protocol error and an unreadable value a decode
/// error here.
pub fn get_content_length<S: ByteStream>(stream: &mut S, server_addr: &str) -> (r: Result<
    usize,
    FetchError,
>)
    ensures
        match r {
            Ok(n) => content_length_of(response_header_of(old(stream).contents()))
                == LengthHeader::Found(n),
            Err(e) => {
                &&& (e == FetchError::Protocol ==> content_length_of(
                    response_header_of(old(stream).contents()),
                ) == LengthHeader::Missing)
                &&& (e == FetchError::Decode ==> content_length_of(
                    response_header_of(old(stream).contents()),
                ) == LengthHeader::Malformed)
                &&& (e == FetchError::UnexpectedEof ==> !has_terminator(old(stream).contents()))
                &&& (e == FetchError::Protocol || e == FetchError::Decode || e
                    == FetchError::UnexpectedEof || e == FetchError::Io)
            },
        },
{
    let req = build_probe_request(server_addr);
    match stream.write_all(&req) {
        Ok(u) => {},
        Err(e) => {
            return Err(FetchError::Io);
        },
    }
    let (headers, _body) = match read_response(stream) {
        Ok(p) => p,
        Err(e) => {
            return Err(e);
        },
    };
    proof {
        lemma_header_block_unique(headers@, old(stream).contents());
    }
    match parse_content_length(&headers) {
        LengthHeader::Found(n) => Ok(n),
        LengthHeader::Missing => Err(FetchError::Protocol),
        LengthHeader::Malformed => Err(FetchError::Decode),
    }
}

/// Sends a ranged request for bytes `start` through `end` and returns the
/// body of the response: the bytes the server handed back for the range,
/// possibly fewer than asked for, never judged here.
pub fn download_chunk<S: ByteStream>(
    stream: &mut S,
    server_addr: &str,
    start: usize,
    end: usize,
) -> (r: Result<Vec<u8>, FetchError>)
    ensures
        r is Ok ==> valid_response_split(
            response_header_of(old(stream).contents()),
            (r->Ok_0)@,
            old(stream).contents(),
        ),
        r is Err ==> (r->Err_0 == FetchError::UnexpectedEof || r->Err_0 == FetchError::Io),
        r == Err::<Vec<u8>, FetchError>(FetchError::UnexpectedEof) ==> !has_terminator(
            old(stream).contents(),
        ),
{
    let req = build_range_request(server_addr, start, end);
    match stream.write_all(&req) {
        Ok(u) => {},
        Err(e) => {
            return Err(FetchError::Io);
        },
    }
    match read_response(stream) {
        Ok(p) => {
            proof {
                lemma_header_block_unique(p.0@, old(stream).contents());
            }
            return Ok(p.1);
        },
        Err(e) => {
            return Err(e);
        },
    }
}

} // verus!
