//! Minimal HTTP header handling for the upgrade handshake: tokenizing a
//! request head into a request line and lower-cased field map, and rendering
//! a response head back to bytes.

use vstd::prelude::*;

verus! {

use vstd::string::StrSliceExecFns;
use vstd::utf8::encode_utf8;

/// The mathematical value of an HTTP header: a status code (0 for parsed
/// requests), the raw request line, and the field pairs in order.
pub struct HttpView {
    pub status: u16,
    pub request_line: Seq<u8>,
    pub fields: Seq<(Seq<u8>, Seq<u8>)>,
}

/// An HTTP request or response head. Parsed requests hold their field names
/// lower-cased; responses hold them as inserted.
pub struct HttpHeader {
    pub status_code: u16,
    pub request_line: Vec<u8>,
    pub fields: Vec<(Vec<u8>, Vec<u8>)>,
}

pub open spec fn pairs_view(v: Seq<(Vec<u8>, Vec<u8>)>) -> Seq<(Seq<u8>, Seq<u8>)> {
    v.map_values(|p: (Vec<u8>, Vec<u8>)| (p.0@, p.1@))
}

impl View for HttpHeader {
    type V = HttpView;

    open spec fn view(&self) -> HttpView {
        HttpView {
            status: self.status_code,
            request_line: self.request_line@,
            fields: pairs_view(self.fields@),
        }
    }
}

pub open spec fn to_lower_byte(b: u8) -> u8 {
    if 65 <= b <= 90 {
        (b + 32) as u8
    } else {
        b
    }
}

pub open spec fn lower_seq(s: Seq<u8>) -> Seq<u8> {
    s.map_values(|b: u8| to_lower_byte(b))
}

/// Position of the first CRLF at or after `i`, or a negative value if none.
pub open spec fn find_crlf(b: Seq<u8>, i: int) -> int
    decreases b.len() - i when 0 <= i <= b.len()
{
    if b.len() - i < 2 {
        -1
    } else if b[i] == 13 && b[i + 1] == 10 {
        i
    } else {
        find_crlf(b, i + 1)
    }
}

pub proof fn lemma_find_crlf_bounds(b: Seq<u8>, i: int)
    requires
        0 <= i <= b.len(),
    ensures
        find_crlf(b, i) >= 0 ==> i <= find_crlf(b, i) && find_crlf(b, i) + 2 <= b.len(),
    decreases b.len() - i,
{
    if b.len() - i < 2 {
    } else if b[i] == 13 && b[i + 1] == 10 {
    } else {
        lemma_find_crlf_bounds(b, i + 1);
    }
}

/// Position of the first `w` at or after `i`, or a negative value if none.
pub open spec fn find_byte(b: Seq<u8>, w: u8, i: int) -> int
    decreases b.len() - i when 0 <= i <= b.len()
{
    if i >= b.len() {
        -1
    } else if b[i] == w {
        i
    } else {
        find_byte(b, w, i + 1)
    }
}

/// A field value with leading spaces and tabs removed.
pub open spec fn trim_leading(s: Seq<u8>) -> Seq<u8>
    decreases s.len(),
{
    if s.len() > 0 && (s[0] == 32 || s[0] == 9) {
        trim_leading(s.drop_first())
    } else {
        s
    }
}

/// A header line split at its first colon: the lower-cased name and the
/// trimmed value. A line without a colon is malformed.
pub open spec fn split_field_line(line: Seq<u8>) -> Option<(Seq<u8>, Seq<u8>)> {
    let p = find_byte(line, 58, 0);
    if p < 0 {
        None
    } else {
        Some((lower_seq(line.take(p)), trim_leading(line.skip(p + 1))))
    }
}

/// The field lines from position `i` up to the blank line that ends the
/// head; `None` when a line misses its CRLF terminator or its colon.
pub open spec fn parse_fields(b: Seq<u8>, i: int) -> Option<Seq<(Seq<u8>, Seq<u8>)>>
    decreases b.len() - i when 0 <= i <= b.len() via parse_fields_decreases
{
    let e = find_crlf(b, i);
    if e < 0 {
        None
    } else if e == i {
        Some(Seq::empty())
    } else {
        match split_field_line(b.subrange(i, e)) {
            None => None,
            Some(f) => match parse_fields(b, e + 2) {
                None => None,
                Some(rest) => Some(seq![f] + rest),
            },
        }
    }
}

#[via_fn]
proof fn parse_fields_decreases(b: Seq<u8>, i: int) {
    lemma_find_crlf_bounds(b, i);
}

/// The whole request head: the request line, then the fields. `None` on
/// malformed input.
pub open spec fn spec_parse_http(b: Seq<u8>) -> Option<HttpView> {
    let e = find_crlf(b, 0);
    if e < 0 {
        None
    } else {
        match parse_fields(b, e + 2) {
            None => None,
            Some(fields) => Some(HttpView { status: 0, request_line: b.take(e), fields }),
        }
    }
}

/// First value stored under `name`, by exact match on the stored bytes.
pub open spec fn lookup_field(fs: Seq<(Seq<u8>, Seq<u8>)>, name: Seq<u8>) -> Option<Seq<u8>>
    decreases fs.len(),
{
    if fs.len() == 0 {
        None
    } else if fs[0].0 == name {
        Some(fs[0].1)
    } else {
        lookup_field(fs.drop_first(), name)
    }
}

fn ex_find_crlf(b: &[u8], i: usize) -> (r: Option<usize>)
    requires
        i <= b@.len(),
    ensures
        match r {
            Some(j) => find_crlf(b@, i as int) == j && i <= j && j + 2 <= b@.len(),
            None => find_crlf(b@, i as int) < 0,
        },
    decreases b@.len() - i,
{
    if b.len() - i < 2 {
        None
    } else if b[i] == 13 && b[i + 1] == 10 {
        Some(i)
    } else {
        ex_find_crlf(b, i + 1)
    }
}

fn ex_find_byte(b: &[u8], w: u8, i: usize) -> (r: Option<usize>)
    requires
        i <= b@.len(),
    ensures
        match r {
            Some(j) => find_byte(b@, w, i as int) == j && i <= j && j < b@.len(),
            None => find_byte(b@, w, i as int) < 0,
        },
    decreases b@.len() - i,
{
    if i >= b.len() {
        None
    } else if b[i] == w {
        Some(i)
    } else {
        ex_find_byte(b, w, i + 1)
    }
}

/// Copy `b[from..to]` into a fresh vector.
pub fn copy_range(b: &[u8], from: usize, to: usize) -> (r: Vec<u8>)
    requires
        from <= to <= b@.len(),
    ensures
        r@ == b@.subrange(from as int, to as int),
{
    let mut out: Vec<u8> = Vec::new();
    let mut j: usize = from;
    while j < to
        invariant
            from <= j <= to <= b@.len(),
            out@ == b@.subrange(from as int, j as int),
        decreases to - j,
    {
        out.push(b[j]);
        proof {
            assert(b@.subrange(from as int, j + 1) =~= b@.subrange(from as int, j as int).push(
                b@[j as int],
            ));
        }
        j = j + 1;
    }
    out
}

fn ex_trim_from(line: &[u8], from: usize) -> (r: Vec<u8>)
    requires
        from <= line@.len(),
    ensures
        r@ == trim_leading(line@.skip(from as int)),
    decreases line@.len() - from,
{
    if from < line.len() && (line[from] == 32 || line[from] == 9) {
        proof {
            assert(line@.skip(from as int).drop_first() =~= line@.skip(from + 1));
        }
        ex_trim_from(line, from + 1)
    } else {
        let r = copy_range(line, from, line.len());
        proof {
            assert(line@.subrange(from as int, line@.len() as int) =~= line@.skip(from as int));
        }
        r
    }
}

/// Split one header line into its lower-cased name and trimmed value.
fn ex_split_field_line(line: &[u8]) -> (r: Option<(Vec<u8>, Vec<u8>)>)
    ensures
        match r {
            Some(f) => split_field_line(line@) matches Some(g) && f.0@ == g.0 && f.1@ == g.1,
            None => split_field_line(line@) is None,
        },
{
    match ex_find_byte(line, 58, 0) {
        None => None,
        Some(p) => {
            let mut name: Vec<u8> = Vec::new();
            let mut j: usize = 0;
            while j < p
                invariant
                    0 <= j <= p < line@.len(),
                    name@ == lower_seq(line@.take(p as int)).take(j as int),
                decreases p - j,
            {
                let b: u8 = line[j];
                let lb: u8 = if 65 <= b && b <= 90 {
                    b + 32
                } else {
                    b
                };
                name.push(lb);
                proof {
                    assert(lower_seq(line@.take(p as int)).take(j + 1) =~= lower_seq(
                        line@.take(p as int),
                    ).take(j as int).push(to_lower_byte(line@[j as int])));
                }
                j = j + 1;
            }
            proof {
                assert(lower_seq(line@.take(p as int)).take(p as int) =~= lower_seq(
                    line@.take(p as int),
                ));
            }
            let n: usize = line.len();
            proof {
                assert(p < n);
            }
            let value = ex_trim_from(line, p + 1);
            Some((name, value))
        },
    }
}

/// Parse the field lines from position `i`, mirroring `parse_fields`.
fn ex_parse_fields(b: &[u8], i: usize) -> (r: Option<Vec<(Vec<u8>, Vec<u8>)>>)
    requires
        i <= b@.len(),
    ensures
        match r {
            Some(v) => parse_fields(b@, i as int) matches Some(fs) && pairs_view(v@) == fs,
            None => parse_fields(b@, i as int) is None,
        },
    decreases b@.len() - i,
{
    match ex_find_crlf(b, i) {
        None => None,
        Some(e) => {
            if e == i {
                let r: Vec<(Vec<u8>, Vec<u8>)> = Vec::new();
                proof {
                    assert(pairs_view(r@) =~= Seq::<(Seq<u8>, Seq<u8>)>::empty());
                }
                Some(r)
            } else {
                let n: usize = b.len();
                proof {
                    assert(e + 2 <= n);
                }
                let line: Vec<u8> = copy_range(b, i, e);
                match ex_split_field_line(line.as_slice()) {
                    None => None,
                    Some(f) => match ex_parse_fields(b, e + 2) {
                        None => None,
                        Some(mut rest) => {
                            rest.insert(0, f);
                            proof {
                                let fs = parse_fields(b@, i as int)->Some_0;
                                assert(pairs_view(rest@) =~= fs);
                            }
                            Some(rest)
                        },
                    },
                }
            }
        },
    }
}

/// Parse a raw request head. Fails on input without a terminated request
/// line, a field line without a colon, or a head without its blank-line end.
pub fn parse_http_header(buf: &[u8]) -> (r: Result<HttpHeader, ()>)
    ensures
        match r {
            Ok(h) => spec_parse_http(buf@) matches Some(v) && h@ == v,
            Err(()) => spec_parse_http(buf@) is None,
        },
{
    match ex_find_crlf(buf, 0) {
        None => Err(()),
        Some(e) => {
            let n: usize = buf.len();
            proof {
                assert(e + 2 <= n);
            }
            let request_line: Vec<u8> = copy_range(buf, 0, e);
            proof {
                assert(buf@.subrange(0, e as int) =~= buf@.take(e as int));
            }
            match ex_parse_fields(buf, e + 2) {
                None => Err(()),
                Some(fields) => Ok(HttpHeader { status_code: 0, request_line, fields }),
            }
        },
    }
}

impl HttpHeader {
    /// The first value stored under `name` (exact byte match; parsed
    /// requests store names lower-cased).
    pub fn get_field(&self, name: &[u8]) -> (r: Option<&Vec<u8>>)
        ensures
            match r {
            Some(v) => lookup_field(self@.fields, name@) == Some(v@),
                None => lookup_field(self@.fields, name@) is None,
            },
    {
        let r = self.get_field_from(name, 0);
        proof {
            assert(self@.fields.skip(0) =~= self@.fields);
        }
        r
    }

    fn get_field_from(&self, name: &[u8], i: usize) -> (r: Option<&Vec<u8>>)
        requires
            i <= self.fields@.len(),
        ensures
            match r {
                Some(v) => lookup_field(self@.fields.skip(i as int), name@) == Some(v@),
                None => lookup_field(self@.fields.skip(i as int), name@) is None,
            },
        decreases self.fields@.len() - i,
    {
        if i >= self.fields.len() {
            None
        } else {
            proof {
                assert(self@.fields.skip(i as int).drop_first() =~= self@.fields.skip(i + 1));
                assert(self@.fields.skip(i as int)[0] == self@.fields[i as int]);
            }
            let same = eq_bytes(self.fields[i].0.as_slice(), name);
            if same {
                Some(&self.fields[i].1)
            } else {
                self.get_field_from(name, i + 1)
            }
        }
    }

    /// Append a field pair.
    pub fn insert_field(&mut self, name: Vec<u8>, value: Vec<u8>)
        ensures
            final(self)@.status == old(self)@.status,
            final(self)@.request_line == old(self)@.request_line,
            final(self)@.fields == old(self)@.fields.push((name@, value@)),
    {
        self.fields.push((name, value));
        proof {
            assert(pairs_view(self.fields@) =~= pairs_view(old(self).fields@).push((
                name@,
                value@,
            )));
        }
    }

    /// The switching-protocols response head that upgrades a connection.
    pub fn response_101() -> (r: HttpHeader)
        ensures
            r@.status == 101,
            r@.request_line == Seq::<u8>::empty(),
            r@.fields == response_101_fields(),
    {
        let mut fields: Vec<(Vec<u8>, Vec<u8>)> = Vec::new();
        fields.push(("Upgrade".as_bytes_vec(), "websocket".as_bytes_vec()));
        fields.push(("Connection".as_bytes_vec(), "Upgrade".as_bytes_vec()));
        let h = HttpHeader { status_code: 101, request_line: Vec::new(), fields };
        proof {
            assert(h@.fields =~= response_101_fields());
        }
        h
    }

    /// The bad-request response head that rejects a handshake.
    pub fn response_400() -> (r: HttpHeader)
        ensures
            r@.status == 400,
            r@.request_line == Seq::<u8>::empty(),
            r@.fields == Seq::<(Seq<u8>, Seq<u8>)>::empty(),
    {
        let h = HttpHeader { status_code: 400, request_line: Vec::new(), fields: Vec::new() };
        proof {
            assert(h@.fields =~= Seq::<(Seq<u8>, Seq<u8>)>::empty());
        }
        h
    }

    /// Render this head as response bytes: status line, fields, blank line.
    pub fn as_vec(&self) -> (r: Vec<u8>)
        requires
            self@.status < 1000,
        ensures
            r@ == render_response(self@),
    {
        let mut out: Vec<u8> = Vec::new();
        append_bytes(&mut out, "HTTP/1.1 ".as_bytes_vec().as_slice());
        let c: u16 = self.status_code;
        out.push(48 + (c / 100) as u8);
        out.push(48 + ((c / 10) % 10) as u8);
        out.push(48 + (c % 10) as u8);
        out.push(32);
        if c == 101 {
            append_bytes(&mut out, "Switching Protocols".as_bytes_vec().as_slice());
        } else if c == 400 {
            append_bytes(&mut out, "Bad Request".as_bytes_vec().as_slice());
        }
        out.push(13);
        out.push(10);
        proof {
            assert(out@ =~= status_line(self@.status));
        }
        let mut i: usize = 0;
        while i < self.fields.len()
            invariant
                0 <= i <= self.fields@.len(),
                out@ == status_line(self@.status) + render_fields(self@.fields.take(i as int)),
            decreases self.fields@.len() - i,
        {
            append_bytes(&mut out, self.fields[i].0.as_slice());
            out.push(58);
            out.push(32);
            append_bytes(&mut out, self.fields[i].1.as_slice());
            out.push(13);
            out.push(10);
            proof {
                lemma_render_fields_snoc(self@.fields, i as int);
                assert(out@ =~= status_line(self@.status) + render_fields(
                    self@.fields.take(i + 1),
                ));
            }
            i = i + 1;
        }
        out.push(13);
        out.push(10);
        proof {
            assert(self@.fields.take(self@.fields.len() as int) =~= self@.fields);
            assert(out@ =~= render_response(self@));
        }
        out
    }
}

/// Compare two byte strings for equality.
pub fn eq_bytes(a: &[u8], b: &[u8]) -> (r: bool)
    ensures
        r == (a@ == b@),
{
    if a.len() != b.len() {
        proof {
            assert(a@.len() != b@.len());
        }
        return false;
    }
    let mut j: usize = 0;
    while j < a.len()
        invariant
            0 <= j <= a@.len(),
            a@.len() == b@.len(),
            forall|t: int| 0 <= t < j ==> a@[t] == b@[t],
        decreases a@.len() - j,
    {
        if a[j] != b[j] {
            return false;
        }
        j = j + 1;
    }
    proof {
        assert(a@ =~= b@);
    }
    true
}

/// Append a byte slice to a vector.
pub fn append_bytes(out: &mut Vec<u8>, add: &[u8])
    ensures
        final(out)@ == old(out)@ + add@,
{
    let mut j: usize = 0;
    while j < add.len()
        invariant
            0 <= j <= add@.len(),
            out@ == old(out)@ + add@.take(j as int),
        decreases add@.len() - j,
    {
        out.push(add[j]);
        proof {
            assert(old(out)@ + add@.take(j + 1) =~= (old(out)@ + add@.take(j as int)).push(
                add@[j as int],
            ));
        }
        j = j + 1;
    }
    proof {
        assert(add@.take(add@.len() as int) =~= add@);
    }
}

/// The fields a switching-protocols response carries before the accept key.
pub open spec fn response_101_fields() -> Seq<(Seq<u8>, Seq<u8>)> {
    seq![
        (encode_utf8("Upgrade"@), encode_utf8("websocket"@)),
        (encode_utf8("Connection"@), encode_utf8("Upgrade"@)),
    ]
}

/// The reason phrase of the statuses this engine sends.
pub open spec fn reason_bytes(status: u16) -> Seq<u8> {
    if status == 101 {
        encode_utf8("Switching Protocols"@)
    } else if status == 400 {
        encode_utf8("Bad Request"@)
    } else {
        Seq::empty()
    }
}

/// `HTTP/1.1 <code> <reason>\r\n` with the code as three digits.
pub open spec fn status_line(status: u16) -> Seq<u8> {
    encode_utf8("HTTP/1.1 "@) + seq![
        (48 + (status / 100)) as u8,
        (48 + ((status / 10) % 10)) as u8,
        (48 + (status % 10)) as u8,
        32u8,
    ] + reason_bytes(status) + seq![13u8, 10u8]
}

/// `<name>: <value>\r\n` for each field, in order.
pub open spec fn render_fields(fs: Seq<(Seq<u8>, Seq<u8>)>) -> Seq<u8>
    decreases fs.len(),
{
    if fs.len() == 0 {
        Seq::empty()
    } else {
        fs[0].0 + seq![58u8, 32u8] + fs[0].1 + seq![13u8, 10u8] + render_fields(fs.drop_first())
    }
}

pub proof fn lemma_render_fields_snoc(fs: Seq<(Seq<u8>, Seq<u8>)>, i: int)
    requires
        0 <= i < fs.len(),
    ensures
        render_fields(fs.take(i + 1)) =~= render_fields(fs.take(i)) + fs[i].0 + seq![58u8, 32u8]
            + fs[i].1 + seq![13u8, 10u8],
    decreases i,
{
    if i == 0 {
        assert(fs.take(1).drop_first() =~= Seq::<(Seq<u8>, Seq<u8>)>::empty());
        assert(fs.take(0) =~= Seq::<(Seq<u8>, Seq<u8>)>::empty());
    } else {
        let tl = fs.drop_first();
        lemma_render_fields_snoc(tl, i - 1);
        assert(fs.take(i + 1).drop_first() =~= tl.take(i));
        assert(fs.take(i).drop_first() =~= tl.take(i - 1));
        assert(fs.take(i + 1)[0] == fs[0]);
        assert(fs.take(i)[0] == fs[0]);
        assert(tl[i - 1] == fs[i]);
    }
}

/// The full rendered response head.
pub open spec fn render_response(h: HttpView) -> Seq<u8> {
    status_line(h.status) + render_fields(h.fields) + seq![13u8, 10u8]
}

} // verus!
