//! Choosing a response encoding from an `Accept-Encoding` header, and
//! compressing a body with it.
use vstd::prelude::*;
use vstd::string::StringSliceAdditionalSpecFns;

verus! {

/// A response encoding.
#[derive(Debug, Clone, Copy, PartialEq, Eq, Structural)]
pub enum Encoding {
    Gzip,
    Zlib,
    No,
}

/// A compressor failed to produce its stream.
#[derive(Debug, Clone, Copy, PartialEq, Eq, Structural)]
pub enum CompressionError {
    Encoder,
}

/// What gzip compression (flate2, default level, default header) makes of a byte string.
pub uninterp spec fn gzip_of(data: Seq<u8>) -> Seq<u8>;

/// What zlib compression (flate2, default level) makes of a byte string.
pub uninterp spec fn zlib_of(data: Seq<u8>) -> Seq<u8>;

/// Relies on flate2's `GzEncoder` writing into a `Vec`: the stream depends on
/// the input bytes alone (no time stamp in the header); `None` on an encoder error.
#[verifier::external_body]
fn gzip(data: &[u8]) -> (r: Option<Vec<u8>>)
    ensures
        r matches Some(v) ==> v@ == gzip_of(data@),
{
    let mut encoder = flate2::write::GzEncoder::new(Vec::new(), flate2::Compression::default());
    match std::io::Write::write_all(&mut encoder, data) {
        Ok(()) => encoder.finish().ok(),
        Err(_) => None,
    }
}

/// Relies on flate2's `ZlibEncoder` writing into a `Vec`: the stream depends
/// on the input bytes alone; `None` on an encoder error.
#[verifier::external_body]
fn zlib(data: &[u8]) -> (r: Option<Vec<u8>>)
    ensures
        r matches Some(v) ==> v@ == zlib_of(data@),
{
    let mut encoder = flate2::write::ZlibEncoder::new(Vec::new(), flate2::Compression::default());
    match std::io::Write::write_all(&mut encoder, data) {
        Ok(()) => encoder.finish().ok(),
        Err(_) => None,
    }
}

/// Whether `needle` occurs in `hay` at position `i`.
pub open spec fn occurs_at(hay: Seq<u8>, needle: Seq<u8>, i: int) -> bool {
    0 <= i && i + needle.len() <= hay.len() && hay.subrange(i, i + needle.len()) == needle
}

/// Whether `needle` occurs anywhere in `hay`.
pub open spec fn occurs_in(hay: Seq<u8>, needle: Seq<u8>) -> bool {
    exists|i: int| occurs_at(hay, needle, i)
}

/// Whether the bytes of `needle` occur in the bytes of `hay`.
pub fn bytes_contain(hay: &[u8], needle: &[u8]) -> (r: bool)
    ensures
        r == occurs_in(hay@, needle@),
{
    let hay_len = hay.len();
    assert(hay@.len() == hay_len);
    if needle.len() == 0 {
        assert(hay@.subrange(0, 0) =~= needle@);
        assert(occurs_at(hay@, needle@, 0));
        return true;
    }
    if needle.len() > hay.len() {
        return false;
    }
    let last = hay.len() - needle.len();
    let mut i: usize = 0;
    while i <= last
        invariant
            1 <= needle@.len() <= hay@.len(),
            hay@.len() == hay_len,
            last == hay@.len() - needle@.len(),
            forall|k: int| 0 <= k < i ==> !occurs_at(hay@, needle@, k),
        decreases last + 1 - i,
    {
        let mut j: usize = 0;
        let mut same = true;
        while j < needle.len()
            invariant
                i <= last,
                1 <= needle@.len() <= hay@.len(),
                hay@.len() == hay_len,
                last == hay@.len() - needle@.len(),
                j <= needle@.len(),
                same == forall|q: int| 0 <= q < j ==> hay@[i + q] == needle@[q],
            decreases needle@.len() - j,
        {
            if hay[i + j] != needle[j] {
                same = false;
            }
            j = j + 1;
        }
        if same {
            assert(hay@.subrange(i as int, i + needle@.len()) =~= needle@);
            assert(occurs_at(hay@, needle@, i as int));
            return true;
        }
        proof {
            assert(!occurs_at(hay@, needle@, i as int)) by {
                if occurs_at(hay@, needle@, i as int) {
                    assert forall|q: int| 0 <= q < needle@.len() implies hay@[i + q] == needle@[q] by {
                        assert(hay@.subrange(i as int, i + needle@.len())[q] == hay@[i + q]);
                    }
                }
            }
        }
        i = i + 1;
    }
    proof {
        assert forall|k: int| !occurs_at(hay@, needle@, k) by {
            if 0 <= k && k + needle@.len() <= hay@.len() {
                assert(k < i);
            }
        }
    }
    false
}

/// The encoding an `Accept-Encoding` value asks for: gzip if it names gzip,
/// else zlib if it names deflate, else none.
pub open spec fn encoding_for(accept: Seq<u8>) -> Encoding {
    if occurs_in(accept, "gzip".spec_bytes()) {
        Encoding::Gzip
    } else if occurs_in(accept, "deflate".spec_bytes()) {
        Encoding::Zlib
    } else {
        Encoding::No
    }
}

impl Encoding {
    /// The encoding an `Accept-Encoding` value asks for.
    pub fn from_accept_encoding(value: &str) -> (r: Encoding)
        ensures
            r == encoding_for(value.spec_bytes()),
    {
        if bytes_contain(value.as_bytes(), "gzip".as_bytes()) {
            Encoding::Gzip
        } else if bytes_contain(value.as_bytes(), "deflate".as_bytes()) {
            Encoding::Zlib
        } else {
            Encoding::No
        }
    }

    /// The encoding's token in a `Content-Encoding` header; empty for none.
    pub fn to_string(&self) -> (r: String)
        ensures
            r@ == (match *self {
                Encoding::Gzip => "gzip"@,
                Encoding::Zlib => "deflate"@,
                Encoding::No => ""@,
            }),
    {
        match self {
            Encoding::Gzip => "gzip".to_owned(),
            Encoding::Zlib => "deflate".to_owned(),
            Encoding::No => "".to_owned(),
        }
    }
}

impl Default for Encoding {
    /// No compression.
    fn default() -> (r: Encoding)
        ensures
            r == Encoding::No,
    {
        Encoding::No
    }
}

/// Compresses `body` with the encoding that `accept_encoding` asks for. With
/// none asked for, the body stays as it is (`None`) and the encoding is `No`.
pub fn compress_with_encoding(body: &str, accept_encoding: &str) -> (r: Result<
    (Option<Vec<u8>>, Encoding),
    CompressionError,
>)
    ensures
        encoding_for(accept_encoding.spec_bytes()) == Encoding::No ==> (r matches Ok((None, e))
            && e == Encoding::No),
        encoding_for(accept_encoding.spec_bytes()) == Encoding::Gzip ==> match r {
            Ok((Some(v), e)) => e == Encoding::Gzip && v@ == gzip_of(body.spec_bytes()),
            Ok((None, _)) => false,
            Err(e) => e == CompressionError::Encoder,
        },
        encoding_for(accept_encoding.spec_bytes()) == Encoding::Zlib ==> match r {
            Ok((Some(v), e)) => e == Encoding::Zlib && v@ == zlib_of(body.spec_bytes()),
            Ok((None, _)) => false,
            Err(e) => e == CompressionError::Encoder,
        },
{
    match Encoding::from_accept_encoding(accept_encoding) {
        Encoding::Gzip => match gzip(body.as_bytes()) {
            Some(v) => Ok((Some(v), Encoding::Gzip)),
            None => Err(CompressionError::Encoder),
        },
        Encoding::Zlib => match zlib(body.as_bytes()) {
            Some(v) => Ok((Some(v), Encoding::Zlib)),
            None => Err(CompressionError::Encoder),
        },
        Encoding::No => Ok((None, Encoding::No)),
    }
}

} // verus!
