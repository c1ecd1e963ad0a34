//! Egress bookkeeping: the headers that describe the outgoing body.

use crate::body::Rejection;
use crate::headers::{
    bytes_to_text, first_value, has_room, header_get, header_insert, header_remove, header_takes,
    header_values, is_header_name, is_name_char, lemma_one_more, lemma_text_value_text,
    text_as_bytes, text_to_bytes, text_value, value_text, with_value, without_name, HeaderModel,
};
use crate::text::{
    contains, contains_spec, decimal, decimal_string, is_digit, lemma_decimal_digits, lower_ascii,
};
use vstd::prelude::*;

verus! {

/// The host of a URL, as `hyper::Uri` reads it; `None` where the text is no
/// URL or has no host.
pub uninterp spec fn uri_host(url: Seq<char>) -> Option<Seq<char>>;

/// Parses `url` as a `hyper::Uri` (`str::parse`) and asks `Uri::host` for its
/// host. The contract claims no more than that the outcome depends on the text
/// alone: it is what [`uri_host`] names.
#[verifier::external_body]
pub(crate) fn host_of_url(url: &str) -> (r: Option<String>)
    ensures
        r.deep_view() == uri_host(url@),
{
    url.parse::<hyper::Uri>().ok().and_then(|u| u.host().map(|h| h.to_string()))
}

/// The headers say that the body is sent in chunks: `Transfer-Encoding` is
/// text and holds `chunked`.
pub open spec fn is_chunked(h: HeaderModel) -> bool {
    match first_value(h, "transfer-encoding"@) {
        Some(bytes) => match value_text(bytes) {
            Some(text) => contains_spec(text, "chunked"@),
            None => false,
        },
        None => false,
    }
}

/// The headers with `name` set to a text, where there is a text to set; `None`
/// where the text cannot stand in a header.
pub open spec fn with_text(h: HeaderModel, name: Seq<char>, text: Option<Seq<char>>) -> Option<
    HeaderModel,
> {
    match text {
        Some(t) => match text_value(t) {
            Some(bytes) => Some(with_value(h, name, bytes)),
            None => None,
        },
        None => Some(h),
    }
}

/// The headers with `Content-Length` saying `len`, or without `Content-Length`
/// where the body is sent in chunks.
pub open spec fn with_length(h: HeaderModel, len: nat) -> HeaderModel {
    if is_chunked(h) {
        without_name(h, "content-length"@)
    } else {
        with_value(h, "content-length"@, text_as_bytes(decimal(len)))
    }
}

/// The headers that go out with a body of `len` bytes: `Content-Type` and
/// `Host` set where there is one to set, `Content-Length` as [`with_length`]
/// says, and `Accept-Encoding` gone where `plain` asks for it. `None` where
/// the content type or the host cannot stand in a header.
pub open spec fn egress_headers(
    h: HeaderModel,
    content_type: Option<Seq<char>>,
    host: Option<Seq<char>>,
    len: nat,
    plain: bool,
) -> Option<HeaderModel> {
    match with_text(h, "content-type"@, content_type) {
        Some(typed) => match with_text(typed, "host"@, host) {
            Some(hosted) => {
                let sized = with_length(hosted, len);
                if plain {
                    Some(without_name(sized, "accept-encoding"@))
                } else {
                    Some(sized)
                }
            },
            None => None,
        },
        None => None,
    }
}

/// Sets a header to a text.
///
/// `true` exactly where the text can stand in a header and the header map
/// takes the name with it; the name then holds the text and no other value.
/// The map takes every header name while it has room.
pub fn set_text_header(headers: &mut hyper::HeaderMap, name: &str, text: &str) -> (ok: bool)
    ensures
        ok == (text_value(text@) matches Some(bytes) && header_takes(
            *old(headers),
            name@,
            bytes,
        )),
        ok ==> with_text(header_values(*old(headers)), name@, Some(text@)) == Some(
            header_values(*final(headers)),
        ),
        ok ==> is_header_name(name@),
        is_header_name(name@) && text_value(text@) is Some && has_room(
            header_values(*old(headers)),
            1,
        ) ==> ok,
{
    match text_to_bytes(text) {
        Some(bytes) => header_insert(headers, name, &bytes),
        None => false,
    }
}

/// The names that the library itself writes are header names.
pub proof fn lemma_own_names()
    ensures
        is_header_name("content-type"@),
        is_header_name("host"@),
        is_header_name("content-length"@),
{
    reveal_strlit("content-type");
    reveal_strlit("host");
    reveal_strlit("content-length");
    let a = "content-type"@;
    assert(a =~= seq!['c', 'o', 'n', 't', 'e', 'n', 't', '-', 't', 'y', 'p', 'e']);
    assert forall|i: int| 0 <= i < a.len() implies is_name_char(#[trigger] a[i]) by {}
    let b = "host"@;
    assert(b =~= seq!['h', 'o', 's', 't']);
    assert forall|i: int| 0 <= i < b.len() implies is_name_char(#[trigger] b[i]) by {}
    let c = "content-length"@;
    assert(c =~= seq!['c', 'o', 'n', 't', 'e', 'n', 't', '-', 'l', 'e', 'n', 'g', 't', 'h']);
    assert forall|i: int| 0 <= i < c.len() implies is_name_char(#[trigger] c[i]) by {}
}

/// Whether the headers say that the body is sent in chunks.
pub fn headers_chunked(headers: &hyper::HeaderMap) -> (r: bool)
    ensures
        r == is_chunked(header_values(*headers)),
{
    match header_get(headers, "transfer-encoding") {
        Some(bytes) => match bytes_to_text(&bytes) {
            Some(text) => contains(text.as_str(), "chunked"),
            None => false,
        },
        None => false,
    }
}

/// The digits of a number can stand in a header.
pub proof fn lemma_decimal_is_header_text(n: nat)
    ensures
        text_value(decimal(n)) == Some(text_as_bytes(decimal(n))),
{
    lemma_decimal_digits(n);
    let s = decimal(n);
    assert forall|i: int| 0 <= i < s.len() implies crate::headers::is_text_char(
        #[trigger] s[i],
    ) by {
        assert(is_digit(s[i]));
    }
    lemma_text_value_text(s);
}

/// Writes the headers that describe the outgoing body.
///
/// `Ok` where the headers are now what [`egress_headers`] says. Status 500
/// where the content type or the host cannot stand in a header; and where the
/// header map did not take a value, which it does while it has room for three
/// names.
pub fn finish_headers(
    headers: &mut hyper::HeaderMap,
    content_type: &Option<String>,
    host: &Option<String>,
    len: usize,
    plain: bool,
) -> (r: Result<(), Rejection>)
    ensures
        r is Ok ==> egress_headers(
            header_values(*old(headers)),
            content_type.deep_view(),
            host.deep_view(),
            len as nat,
            plain,
        ) == Some(header_values(*final(headers))),
        r matches Err(e) ==> e.status == 500 && (egress_headers(
            header_values(*old(headers)),
            content_type.deep_view(),
            host.deep_view(),
            len as nat,
            plain,
        ) is None || !has_room(header_values(*old(headers)), 3)),
{
    let ghost start = header_values(*headers);
    proof {
        lemma_own_names();
    }
    match content_type {
        Some(t) => {
            if !set_text_header(headers, "content-type", t.as_str()) {
                return Err(
                    Rejection { status: 500, message: "Content-Type was not accepted".to_owned() },
                );
            }
            proof {
                lemma_one_more(start, "content-type"@, text_value(t@)->0);
            }
        },
        None => {},
    }
    let ghost typed = header_values(*headers);
    match host {
        Some(h) => {
            if !set_text_header(headers, "host", h.as_str()) {
                return Err(Rejection { status: 500, message: "Host was not accepted".to_owned() });
            }
            proof {
                lemma_one_more(typed, "host"@, text_value(h@)->0);
            }
        },
        None => {},
    }
    if headers_chunked(headers) {
        let _ = header_remove(headers, "content-length");
    } else {
        let digits = decimal_string(len);
        proof {
            lemma_decimal_is_header_text(len as nat);
        }
        if !set_text_header(headers, "content-length", digits.as_str()) {
            return Err(
                Rejection { status: 500, message: "Content-Length was not accepted".to_owned() },
            );
        }
    }
    if plain {
        let _ = header_remove(headers, "accept-encoding");
    }
    Ok(())
}

/// What holds of the headers that go out: `Accept-Encoding` is not among them
/// where `plain` asked for that; `Content-Length` is absent where the body is
/// sent in chunks, and says the length of the body where it is not.
pub proof fn lemma_egress_headers(
    h: HeaderModel,
    content_type: Option<Seq<char>>,
    host: Option<Seq<char>>,
    len: nat,
    plain: bool,
)
    requires
        egress_headers(h, content_type, host, len, plain) is Some,
    ensures
        ({
            let out = egress_headers(h, content_type, host, len, plain)->0;
            &&& plain ==> first_value(out, "accept-encoding"@) is None
            &&& is_chunked(out) ==> first_value(out, "content-length"@) is None
            &&& !is_chunked(out) ==> first_value(out, "content-length"@) == Some(
                text_as_bytes(decimal(len)),
            )
        }),
{
    reveal_strlit("accept-encoding");
    reveal_strlit("content-length");
    reveal_strlit("transfer-encoding");
    let typed = with_text(h, "content-type"@, content_type)->0;
    let hosted = with_text(typed, "host"@, host)->0;
    let sized = with_length(hosted, len);
    let ae = lower_ascii("accept-encoding"@);
    let cl = lower_ascii("content-length"@);
    let te = lower_ascii("transfer-encoding"@);
    assert(ae.len() == 15 && cl.len() == 14 && te.len() == 17);
    assert(ae != cl && ae != te && cl != te);
    assert(is_chunked(sized) == is_chunked(hosted));
    if plain {
        let out = without_name(sized, "accept-encoding"@);
        assert(is_chunked(out) == is_chunked(sized));
    }
}

} // verus!
