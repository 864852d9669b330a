use vstd::prelude::*;
use vstd::string::StringSliceAdditionalSpecFns;
use vstd::utf8::encode_utf8_decode_utf8;

verus! {

/// The ASCII decimal digits of `n`, most significant first, with no leading zeros.
pub open spec fn decimal(n: nat) -> Seq<u8>
    decreases n,
{
    if n < 10 {
        seq![(48 + n) as u8]
    } else {
        decimal(n / 10).push((48 + n % 10) as u8)
    }
}

/// An HTTP response: status line, a `Content-Length` header giving the
/// body's length in bytes, an empty line, then the body.
pub open spec fn response_bytes(status_line: Seq<u8>, body: Seq<u8>) -> Seq<u8> {
    status_line + "\r\nContent-Length: ".spec_bytes() + decimal(body.len()) + "\r\n\r\n".spec_bytes()
        + body
}

/// The one request served with a page; everything else gets the not-found page.
pub open spec fn is_root_request(request_line: Seq<char>) -> bool {
    request_line == "GET / HTTP/1.1"@
}

fn same_bytes(a: &[u8], b: &[u8]) -> (r: bool)
    ensures
        r == (a@ == b@),
{
    if a.len() != b.len() {
        return false;
    }
    let mut i: usize = 0;
    while i < a.len()
        invariant
            a@.len() == b@.len(),
            i <= a@.len(),
            a@.take(i as int) == b@.take(i as int),
        decreases a@.len() - i,
    {
        if a[i] != b[i] {
            assert(a@[i as int] != b@[i as int]);
            return false;
        }
        assert(a@.take(i + 1) =~= a@.take(i as int).push(a@[i as int]));
        assert(b@.take(i + 1) =~= b@.take(i as int).push(b@[i as int]));
        i = i + 1;
    }
    assert(a@ =~= a@.take(i as int));
    assert(b@ =~= b@.take(i as int));
    true
}

/// Picks the status line and the page to send for a request line: the root
/// page for `GET / HTTP/1.1`, the not-found page for anything else.
pub fn route(request_line: &str) -> (r: (&'static str, &'static str))
    ensures
        is_root_request(request_line@) ==> r.0@ == "HTTP/1.1 200 OK"@ && r.1@ == "hello.html"@,
        !is_root_request(request_line@) ==> r.0@ == "HTTP/1.1 404 NOT FOUND"@ && r.1@
            == "404.html"@,
{
    let root = "GET / HTTP/1.1";
    let same = same_bytes(request_line.as_bytes(), root.as_bytes());
    proof {
        encode_utf8_decode_utf8(request_line@);
        encode_utf8_decode_utf8(root@);
    }
    if same {
        ("HTTP/1.1 200 OK", "hello.html")
    } else {
        ("HTTP/1.1 404 NOT FOUND", "404.html")
    }
}

fn push_bytes(out: &mut Vec<u8>, b: &[u8])
    ensures
        final(out)@ == old(out)@ + b@,
{
    let mut i: usize = 0;
    while i < b.len()
        invariant
            i <= b@.len(),
            out@ == old(out)@ + b@.take(i as int),
        decreases b@.len() - i,
    {
        out.push(b[i]);
        assert(b@.take(i + 1) =~= b@.take(i as int).push(b@[i as int]));
        i = i + 1;
    }
    assert(b@.take(i as int) =~= b@);
}

fn push_decimal(out: &mut Vec<u8>, n: usize)
    ensures
        final(out)@ == old(out)@ + decimal(n as nat),
    decreases n,
{
    if n >= 10 {
        push_decimal(out, n / 10);
    }
    let digit: u8 = (n % 10) as u8;
    out.push(48u8 + digit);
    assert(out@ =~= old(out)@ + decimal(n as nat)) by {
        if n >= 10 {
            assert(decimal(n as nat) == decimal((n / 10) as nat).push((48 + n % 10) as u8));
        }
    }
}

/// Frames `contents` as a response under `status_line`.
pub fn render_response(status_line: &str, contents: &str) -> (r: Vec<u8>)
    ensures
        r@ == response_bytes(status_line.spec_bytes(), contents.spec_bytes()),
{
    let body = contents.as_bytes();
    let mut out: Vec<u8> = Vec::new();
    push_bytes(&mut out, status_line.as_bytes());
    push_bytes(&mut out, "\r\nContent-Length: ".as_bytes());
    push_decimal(&mut out, body.len());
    push_bytes(&mut out, "\r\n\r\n".as_bytes());
    push_bytes(&mut out, body);
    out
}

} // verus!
