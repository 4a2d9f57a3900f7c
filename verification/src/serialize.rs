//! The header line that every serialized file starts with: `eevee-serializer: <id>` and a
//! newline, then the payload. Writing a file puts the header in front of the payload; reading
//! one checks the header against the expected serializer id and hands back the payload.
use crate::genome::{Connection, Genome};
use vstd::prelude::*;
use vstd::slice::slice_subrange;
use vstd::slice::slice_to_vec;
use vstd::string::*;
use vstd::utf8::*;

verus! {

broadcast use vstd::utf8::encode_utf8_valid_utf8;

/// Why a file's header was refused.
#[derive(Debug, Clone)]
pub enum HeaderError {
    /// The text holds no newline, so it has no header line at all.
    Missing,
    /// The first line is not the expected header; it holds the bytes of that line.
    Unexpected(Vec<u8>),
}

/// The newline byte that ends the header line.
pub const NEWLINE: u8 = 10;

/// The bytes that open every header, before the serializer id.
pub open spec fn serializer_tag() -> Seq<u8> {
    "eevee-serializer: ".spec_bytes()
}

/// The header line for serializer id `id`, without its newline.
pub open spec fn header_line(id: Seq<u8>) -> Seq<u8> {
    serializer_tag() + id
}

/// The index of the first newline in `b`, or `b.len()` where there is none.
pub open spec fn line_end(b: Seq<u8>) -> int
    decreases b.len(),
{
    if b.len() == 0 {
        0
    } else if b[0] == NEWLINE {
        0
    } else {
        1 + line_end(b.drop_first())
    }
}

/// What reading text with serializer id `id` gives back: `None` where the text holds no
/// newline or its first line is not the header, else the bytes after that first newline.
pub open spec fn text_body(b: Seq<u8>, id: Seq<u8>) -> Option<Seq<u8>> {
    let p = line_end(b);
    if p < b.len() && b.subrange(0, p) == header_line(id) {
        Some(b.subrange(p + 1, b.len() as int))
    } else {
        None
    }
}

/// What reading bytes with serializer id `id` gives back: the bytes after the header and its
/// newline where the bytes start with them, else `None`.
pub open spec fn binary_body(b: Seq<u8>, id: Seq<u8>) -> Option<Seq<u8>> {
    let e = header_line(id).push(NEWLINE);
    if e.len() <= b.len() && b.subrange(0, e.len() as int) == e {
        Some(b.subrange(e.len() as int, b.len() as int))
    } else {
        None
    }
}

/// `line_end` is the first newline, or the length where there is none.
proof fn lemma_line_end(b: Seq<u8>, p: int)
    requires
        0 <= p <= b.len(),
        p == b.len() || b[p] == NEWLINE,
        forall|j: int| 0 <= j < p ==> b[j] != NEWLINE,
    ensures
        line_end(b) == p,
    decreases p,
{
    if p > 0 {
        lemma_line_end(b.drop_first(), p - 1);
    }
}

/// The bounds of `line_end`.
proof fn lemma_line_end_bounds(b: Seq<u8>)
    ensures
        0 <= line_end(b) <= b.len(),
        line_end(b) < b.len() ==> b[line_end(b)] == NEWLINE,
        forall|j: int| 0 <= j < line_end(b) ==> b[j] != NEWLINE,
    decreases b.len(),
{
    if b.len() > 0 && b[0] != NEWLINE {
        lemma_line_end_bounds(b.drop_first());
        assert forall|j: int| 0 <= j < line_end(b) implies b[j] != NEWLINE by {
            if j > 0 {
                assert(b[j] == b.drop_first()[j - 1]);
            }
        }
    }
}

/// The index of the first newline in `b`, or its length where there is none.
fn find_line_end(b: &[u8]) -> (p: usize)
    ensures
        p == line_end(b@),
{
    let mut i: usize = 0;
    while i < b.len()
        invariant
            i <= b@.len(),
            forall|j: int| 0 <= j < i ==> b@[j] != NEWLINE,
        decreases b@.len() - i,
    {
        if b[i] == NEWLINE {
            proof {
                lemma_line_end(b@, i as int);
            }
            return i;
        }
        i = i + 1;
    }
    proof {
        lemma_line_end(b@, i as int);
    }
    i
}

/// Whether the two byte slices hold the same bytes.
fn bytes_equal(a: &[u8], b: &[u8]) -> (r: bool)
    ensures
        r == (a@ == b@),
{
    if a.len() != b.len() {
        return false;
    }
    let mut i: usize = 0;
    while i < a.len()
        invariant
            a@.len() == b@.len(),
            i <= a@.len(),
            forall|j: int| 0 <= j < i ==> a@[j] == b@[j],
        decreases a@.len() - i,
    {
        if a[i] != b[i] {
            return false;
        }
        i = i + 1;
    }
    assert(a@ =~= b@);
    true
}

/// The bytes of the header opening.
fn serializer_tag_bytes() -> (t: &'static [u8])
    ensures
        t@ == serializer_tag(),
{
    "eevee-serializer: ".as_bytes()
}

/// Append all of `src` to `dst`.
fn push_all(dst: &mut Vec<u8>, src: &[u8])
    ensures
        final(dst)@ == old(dst)@ + src@,
{
    let mut i: usize = 0;
    while i < src.len()
        invariant
            i <= src@.len(),
            dst@ == old(dst)@ + src@.subrange(0, i as int),
        decreases src@.len() - i,
    {
        dst.push(src[i]);
        i = i + 1;
        assert(src@.subrange(0, i as int) =~= src@.subrange(0, i - 1).push(src@[i - 1]));
    }
    assert(src@.subrange(0, i as int) =~= src@);
}

/// The header line for `expected_id`, without its newline.
pub fn header_bytes(expected_id: &str) -> (e: Vec<u8>)
    ensures
        e@ == header_line(expected_id.spec_bytes()),
{
    let mut e = slice_to_vec(serializer_tag_bytes());
    push_all(&mut e, expected_id.as_bytes());
    e
}

/// The content of a binary file: the header line for `serializer_id`, its newline, then the
/// payload.
pub fn binary_file_content(serializer_id: &str, payload: &[u8]) -> (c: Vec<u8>)
    ensures
        c@ == header_line(serializer_id.spec_bytes()).push(NEWLINE) + payload@,
{
    let mut c = header_bytes(serializer_id);
    c.push(NEWLINE);
    push_all(&mut c, payload);
    c
}

/// Check the header line of text read from a file against `expected_id` and hand back the
/// text after it.
pub fn strip_text_header<'a>(s: &'a str, expected_id: &str) -> (r: Result<&'a str, HeaderError>)
    ensures
        line_end(s.spec_bytes()) == s.spec_bytes().len() <==> r matches Err(HeaderError::Missing),
        r matches Ok(body) ==> text_body(s.spec_bytes(), expected_id.spec_bytes()) == Some(
            body.spec_bytes(),
        ),
        r is Ok <==> text_body(s.spec_bytes(), expected_id.spec_bytes()) is Some,
        r matches Err(HeaderError::Unexpected(found)) ==> found@ == s.spec_bytes().subrange(
            0,
            line_end(s.spec_bytes()),
        ),
{
    let b = s.as_bytes();
    let p = find_line_end(b);
    proof {
        lemma_line_end_bounds(b@);
    }
    if p == b.len() {
        return Err(HeaderError::Missing);
    }
    let (head_and_newline, _) = b.split_at(p);
    let expected = header_bytes(expected_id);
    if !bytes_equal(head_and_newline, expected.as_slice()) {
        return Err(HeaderError::Unexpected(slice_to_vec(head_and_newline)));
    }
    proof {
        is_char_boundary_iff_not_is_continuation_byte(b@, p as int);
    }
    let (_, rest) = s.split_at(p);
    proof {
        let rb = rest.spec_bytes();
        assert(rb[0] == NEWLINE);
        assert(valid_utf8(rb));
        assert(valid_utf8(pop_first_scalar(rb)));
        reveal_with_fuel(is_char_boundary, 2);
        assert(is_char_boundary(rb, 1));
    }
    let (_, body) = rest.split_at(1);
    proof {
        assert(body.spec_bytes() =~= b@.subrange(p + 1, b@.len() as int));
    }
    Ok(body)
}

/// Check that bytes read from a file start with the header line for `expected_id` and its
/// newline, and hand back the bytes after them.
pub fn strip_binary_header<'a>(bytes: &'a [u8], expected_id: &str) -> (r: Result<
    &'a [u8],
    HeaderError,
>)
    ensures
        r is Ok <==> binary_body(bytes@, expected_id.spec_bytes()) is Some,
        r matches Ok(body) ==> binary_body(bytes@, expected_id.spec_bytes()) == Some(body@),
        r matches Err(HeaderError::Unexpected(found)) ==> found@ == bytes@.subrange(
            0,
            line_end(bytes@),
        ),
        !(r matches Err(HeaderError::Missing)),
{
    let mut expected = header_bytes(expected_id);
    expected.push(NEWLINE);
    let n = expected.len();
    if n <= bytes.len() {
        let (head, _) = bytes.split_at(n);
        if bytes_equal(head, expected.as_slice()) {
            return Ok(slice_subrange(bytes, n, bytes.len()));
        }
    }
    let p = find_line_end(bytes);
    proof {
        lemma_line_end_bounds(bytes@);
    }
    let (found, _) = bytes.split_at(p);
    Err(HeaderError::Unexpected(slice_to_vec(found)))
}

/// The innovation id that a population read from files resumes from: one past the largest
/// id among all the genomes' connections, or 0 when there are none. It is the least id that
/// no connection holds yet above every held one, so an [crate::genome::InnoGen] started
/// from it never issues a held id again. Every id must be below `usize::MAX`, so that the
/// head fits.
pub fn inno_head<C: Connection, G: Genome<C>>(genomes: &[G]) -> (r: usize)
    requires
        forall|g: int, k: int|
            0 <= g < genomes@.len() && 0 <= k < genomes@[g].spec_connections().len()
                ==> #[trigger] genomes@[g].spec_connections()[k].spec_inno() < usize::MAX,
    ensures
        forall|g: int, k: int|
            0 <= g < genomes@.len() && 0 <= k < genomes@[g].spec_connections().len()
                ==> #[trigger] genomes@[g].spec_connections()[k].spec_inno() < r,
        r == 0 || exists|g: int, k: int|
            0 <= g < genomes@.len() && 0 <= k < genomes@[g].spec_connections().len()
                && #[trigger] genomes@[g].spec_connections()[k].spec_inno() + 1 == r,
{
    let mut head: usize = 0;
    let mut g: usize = 0;
    while g < genomes.len()
        invariant
            g <= genomes@.len(),
            forall|gg: int, kk: int|
                0 <= gg < genomes@.len() && 0 <= kk < genomes@[gg].spec_connections().len()
                    ==> #[trigger] genomes@[gg].spec_connections()[kk].spec_inno() < usize::MAX,
            forall|gg: int, k: int|
                0 <= gg < g && 0 <= k < genomes@[gg].spec_connections().len()
                    ==> #[trigger] genomes@[gg].spec_connections()[k].spec_inno() < head,
            head == 0 || exists|gg: int, k: int|
                0 <= gg < genomes@.len() && 0 <= k < genomes@[gg].spec_connections().len()
                    && #[trigger] genomes@[gg].spec_connections()[k].spec_inno() + 1 == head,
        decreases genomes@.len() - g,
    {
        let conns = genomes[g].connections();
        let ghost head0 = head;
        let mut k: usize = 0;
        while k < conns.len()
            invariant
                g < genomes@.len(),
                forall|gg: int, kk: int|
                    0 <= gg < genomes@.len() && 0 <= kk < genomes@[gg].spec_connections().len()
                        ==> #[trigger] genomes@[gg].spec_connections()[kk].spec_inno() < usize::MAX,
                conns@ == genomes@[g as int].spec_connections(),
                k <= conns@.len(),
                head0 <= head,
                forall|gg: int, kk: int|
                    0 <= gg < g && 0 <= kk < genomes@[gg].spec_connections().len()
                        ==> #[trigger] genomes@[gg].spec_connections()[kk].spec_inno() < head0,
                forall|kk: int| 0 <= kk < k ==> #[trigger] conns@[kk].spec_inno() < head,
                head == 0 || exists|gg: int, kk: int|
                    0 <= gg < genomes@.len() && 0 <= kk < genomes@[gg].spec_connections().len()
                        && #[trigger] genomes@[gg].spec_connections()[kk].spec_inno() + 1 == head,
            decreases conns@.len() - k,
        {
            let i = conns[k].inno();
            proof {
                assert(genomes@[g as int].spec_connections()[k as int].spec_inno() < usize::MAX);
            }
            if i >= head {
                head = i + 1;
                assert(genomes@[g as int].spec_connections()[k as int].spec_inno() + 1 == head);
            }
            k = k + 1;
        }
        proof {
            assert forall|gg: int, kk: int|
                0 <= gg < g + 1 && 0 <= kk < genomes@[gg].spec_connections().len()
                    implies #[trigger] genomes@[gg].spec_connections()[kk].spec_inno() < head by {
                if gg == g {
                    assert(conns@[kk].spec_inno() < head);
                }
            }
        }
        g = g + 1;
    }
    head
}

/// Reading back what was written: the bytes that [binary_file_content] puts together for a
/// serializer id are accepted for that id, and give back the payload unchanged.
pub proof fn lemma_binary_round_trip(id: Seq<u8>, payload: Seq<u8>)
    ensures
        binary_body(header_line(id).push(NEWLINE) + payload, id) == Some(payload),
{
    let e = header_line(id).push(NEWLINE);
    let c = e + payload;
    assert(c.subrange(0, e.len() as int) =~= e);
    assert(c.subrange(e.len() as int, c.len() as int) =~= payload);
}

/// Bytes are accepted exactly when they are the header `eevee-serializer: <id>`, a newline
/// byte, then a payload, and what is handed back is that payload: a file of another
/// serializer, or one whose header line runs on past the id, is refused.
pub proof fn lemma_binary_body_exact(b: Seq<u8>, id: Seq<u8>)
    ensures
        binary_body(b, id) matches Some(body) ==> b == "eevee-serializer: ".spec_bytes() + id
            + seq![10u8] + body,
        forall|body: Seq<u8>|
            b == #[trigger] ("eevee-serializer: ".spec_bytes() + id + seq![10u8] + body)
                ==> binary_body(b, id) == Some(body),
{
    let e = header_line(id).push(NEWLINE);
    assert(e =~= "eevee-serializer: ".spec_bytes() + id + seq![10u8]);
    if let Some(body) = binary_body(b, id) {
        assert(b =~= e + body);
    }
    assert forall|body: Seq<u8>|
        b == #[trigger] ("eevee-serializer: ".spec_bytes() + id + seq![10u8] + body)
            implies binary_body(b, id) == Some(body) by {
        assert(b =~= e + body);
        assert(b.subrange(0, e.len() as int) =~= e);
        assert(b.subrange(e.len() as int, b.len() as int) =~= body);
    }
}

/// Text is accepted only where it is the header `eevee-serializer: <id>`, a newline, then
/// the payload handed back.
pub proof fn lemma_text_body_exact(b: Seq<u8>, id: Seq<u8>)
    ensures
        text_body(b, id) matches Some(body) ==> b == "eevee-serializer: ".spec_bytes() + id
            + seq![10u8] + body,
{
    if let Some(body) = text_body(b, id) {
        lemma_line_end_bounds(b);
        let p = line_end(b);
        assert(b[p] == NEWLINE);
        assert(b =~= b.subrange(0, p) + seq![10u8] + b.subrange(p + 1, b.len() as int));
    }
}

/// No byte of the header opening is a newline.
proof fn lemma_tag_has_no_newline()
    ensures
        forall|j: int| 0 <= j < serializer_tag().len() ==> serializer_tag()[j] != NEWLINE,
{
    reveal_strlit("eevee-serializer: ");
    let chars = "eevee-serializer: "@;
    assert(is_ascii_chars(chars));
    is_ascii_chars_encode_utf8(chars);
    assert forall|j: int| 0 <= j < serializer_tag().len() implies serializer_tag()[j] != NEWLINE by {
        assert(chars[j] != '\n');
        assert(serializer_tag()[j] == chars[j] as u8);
    }
}

/// Reading back what was written: text made of the header line for a serializer id, a
/// newline and a body is accepted for that id and gives back the body unchanged, wherever the
/// id itself holds no newline (an id with one can never match a single header line).
pub proof fn lemma_text_round_trip(id: Seq<u8>, body: Seq<u8>)
    requires
        forall|j: int| 0 <= j < id.len() ==> id[j] != NEWLINE,
    ensures
        text_body(header_line(id).push(NEWLINE) + body, id) == Some(body),
{
    let h = header_line(id);
    let c = h.push(NEWLINE) + body;
    lemma_tag_has_no_newline();
    assert forall|j: int| 0 <= j < h.len() implies c[j] != NEWLINE by {
        if j < serializer_tag().len() {
            assert(c[j] == serializer_tag()[j]);
        } else {
            assert(c[j] == id[j - serializer_tag().len()]);
        }
    }
    lemma_line_end(c, h.len() as int);
    assert(c.subrange(0, h.len() as int) =~= h);
    assert(c.subrange(h.len() + 1int, c.len() as int) =~= body);
}

} // verus!
