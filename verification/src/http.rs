//! The part of HTTP/1.x that the upgrade to WebSocket needs: reading a GET
//! request's line and header fields, and writing a response's head and body.

use vstd::prelude::*;
use vstd::slice::*;
use vstd::string::*;
use crate::text::{
    bytes_equal,
    find_bytes,
    find_from,
    skip_spaces,
    skip_spaces_in,
    skip_word,
    skip_word_in,
    trim,
    trim_bytes,
};

verus! {

/// A header field: name and value.
pub type Field = (Vec<u8>, Vec<u8>);

/// A header field as plain byte strings.
pub type FieldView = (Seq<u8>, Seq<u8>);

/// Carriage return, line feed.
pub open spec fn crlf() -> Seq<u8> {
    seq![0x0du8, 0x0au8]
}

/// The empty line that ends a head.
pub open spec fn blank_line() -> Seq<u8> {
    seq![0x0du8, 0x0au8, 0x0du8, 0x0au8]
}

/// `GET`
pub open spec fn method_get() -> Seq<u8> {
    seq![0x47u8, 0x45u8, 0x54u8]
}

/// `HTTP/1.0`
pub open spec fn version_1_0() -> Seq<u8> {
    seq![0x48u8, 0x54u8, 0x54u8, 0x50u8, 0x2fu8, 0x31u8, 0x2eu8, 0x30u8]
}

/// `HTTP/1.1`
pub open spec fn version_1_1() -> Seq<u8> {
    seq![0x48u8, 0x54u8, 0x54u8, 0x50u8, 0x2fu8, 0x31u8, 0x2eu8, 0x31u8]
}

/// A colon.
pub open spec fn colon() -> Seq<u8> {
    seq![0x3au8]
}

/// A colon and a space.
pub open spec fn field_separator() -> Seq<u8> {
    seq![0x3au8, 0x20u8]
}

/// The plain byte strings of stored fields.
pub open spec fn fields_view(fields: Seq<Field>) -> Seq<FieldView> {
    Seq::new(fields.len(), |i: int| (fields[i].0@, fields[i].1@))
}

/// The head of a request: what stands before the first empty line, or the
/// whole text if it has none.
pub open spec fn header_block(data: Seq<u8>) -> Seq<u8> {
    data.take(find_from(data, blank_line(), 0) as int)
}

/// The text up to the first line break, or all of it.
pub open spec fn first_line(h: Seq<u8>) -> Seq<u8> {
    h.take(find_from(h, crlf(), 0) as int)
}

/// The text behind the first line break; empty if there is none.
pub open spec fn after_first_line(h: Seq<u8>) -> Seq<u8> {
    let k = find_from(h, crlf(), 0);
    if k + 2 <= h.len() {
        h.skip(k as int + 2)
    } else {
        Seq::empty()
    }
}

/// Where the word numbered `k` of `s` starts, words being separated by white
/// space; the length of `s` if it has no such word.
pub open spec fn word_start(s: Seq<u8>, k: nat) -> nat
    decreases k,
{
    if k == 0 {
        skip_spaces(s, 0)
    } else {
        skip_spaces(s, skip_word(s, word_start(s, (k - 1) as nat)))
    }
}

/// The word numbered `k` of `s`; empty if it has no such word.
pub open spec fn word(s: Seq<u8>, k: nat) -> Seq<u8> {
    s.subrange(word_start(s, k) as int, skip_word(s, word_start(s, k)) as int)
}

/// The field that a header line holds: what stands before its first colon
/// and what stands behind it, both trimmed. A line without a colon holds
/// none.
pub open spec fn field_of_line(line: Seq<u8>) -> Option<FieldView> {
    let k = find_from(line, colon(), 0);
    if k < line.len() {
        Some((trim(line.take(k as int)), trim(line.skip(k as int + 1))))
    } else {
        None
    }
}

/// The fields of a run of header lines, in their order.
pub open spec fn fields_of(h: Seq<u8>) -> Seq<FieldView>
    decreases h.len(),
{
    if h.len() == 0 {
        Seq::empty()
    } else {
        match field_of_line(first_line(h)) {
            Some(f) => seq![f] + fields_of(after_first_line(h)),
            None => fields_of(after_first_line(h)),
        }
    }
}

/// The value of the last field named `key`, if there is one.
pub open spec fn lookup(fields: Seq<FieldView>, key: Seq<u8>) -> Option<Seq<u8>>
    decreases fields.len(),
{
    if fields.len() == 0 {
        None
    } else if fields.last().0 == key {
        Some(fields.last().1)
    } else {
        lookup(fields.drop_last(), key)
    }
}

/// Why a request is refused.
#[derive(PartialEq, Eq, Structural, Copy, Clone, Debug)]
pub enum RequestError {
    /// The request line does not start with `GET`.
    NotGet,
    /// The request line's third word is neither `HTTP/1.0` nor `HTTP/1.1`.
    InvalidVersion,
}

impl RequestError {
    /// The reason in words.
    pub fn message(&self) -> (text: &'static str)
        ensures
            text@ == (match *self {
                RequestError::NotGet => "Non-GET requests not supported"@,
                RequestError::InvalidVersion => "Invalid HTTP version"@,
            }),
    {
        match *self {
            RequestError::NotGet => "Non-GET requests not supported",
            RequestError::InvalidVersion => "Invalid HTTP version",
        }
    }
}

/// A request's target and header fields, as plain byte strings.
pub struct RequestView {
    pub uri: Seq<u8>,
    pub fields: Seq<FieldView>,
}

/// What a request text says: the second word of its first line is the
/// target, and each later line of the head with a colon is a field.
pub open spec fn parse_request(data: Seq<u8>) -> Result<RequestView, RequestError> {
    let head = header_block(data);
    let line = first_line(head);
    if word(line, 0) != method_get() {
        Err(RequestError::NotGet)
    } else if word(line, 2) != version_1_0() && word(line, 2) != version_1_1() {
        Err(RequestError::InvalidVersion)
    } else {
        Ok(RequestView { uri: word(line, 1), fields: fields_of(after_first_line(head)) })
    }
}

/// A parsed GET request.
#[derive(Debug)]
pub struct Request {
    uri: Vec<u8>,
    fields: Vec<Field>,
}

impl View for Request {
    type V = RequestView;

    closed spec fn view(&self) -> RequestView {
        RequestView { uri: self.uri@, fields: fields_view(self.fields@) }
    }
}

impl Request {
    /// Reads a request. The header fields keep the order of their lines.
    pub fn parse(data: &[u8]) -> (res: Result<Request, RequestError>)
        ensures
            res is Ok <==> parse_request(data@) is Ok,
            res matches Ok(r) ==> parse_request(data@) == Ok::<RequestView, RequestError>(r@),
            res matches Err(e) ==> parse_request(data@) == Err::<RequestView, RequestError>(e),
    {
        let blank: [u8; 4] = [0x0d, 0x0a, 0x0d, 0x0a];
        let line_break: [u8; 2] = [0x0d, 0x0a];
        let get: [u8; 3] = [0x47, 0x45, 0x54];
        let http_1_0: [u8; 8] = [0x48, 0x54, 0x54, 0x50, 0x2f, 0x31, 0x2e, 0x30];
        let http_1_1: [u8; 8] = [0x48, 0x54, 0x54, 0x50, 0x2f, 0x31, 0x2e, 0x31];
        let colon_mark: [u8; 1] = [0x3a];
        assert(blank@ =~= blank_line());
        assert(line_break@ =~= crlf());
        assert(get@ =~= method_get());
        assert(http_1_0@ =~= version_1_0());
        assert(http_1_1@ =~= version_1_1());
        assert(colon_mark@ =~= colon());

        let head_end = find_bytes(data, blank.as_slice(), 0);
        let head = slice_subrange(data, 0, head_end);
        assert(head@ =~= header_block(data@));

        let line_end = find_bytes(head, line_break.as_slice(), 0);
        let line = slice_subrange(head, 0, line_end);
        assert(line@ =~= first_line(head@));

        let start0 = skip_spaces_in(line, 0);
        let end0 = skip_word_in(line, start0);
        let start1 = skip_spaces_in(line, end0);
        let end1 = skip_word_in(line, start1);
        let start2 = skip_spaces_in(line, end1);
        let end2 = skip_word_in(line, start2);
        proof {
            reveal_with_fuel(word_start, 3);
        }
        let method = slice_subrange(line, start0, end0);
        let requri = slice_subrange(line, start1, end1);
        let version = slice_subrange(line, start2, end2);

        if !bytes_equal(method, get.as_slice()) {
            return Err(RequestError::NotGet);
        }
        if !bytes_equal(version, http_1_0.as_slice()) && !bytes_equal(
            version,
            http_1_1.as_slice(),
        ) {
            return Err(RequestError::InvalidVersion);
        }
        let mut rest = if head.len() - line_end >= 2 {
            slice_subrange(head, line_end + 2, head.len())
        } else {
            slice_subrange(head, 0, 0)
        };
        assert(rest@ =~= after_first_line(head@));
        let ghost all = rest@;
        let mut fields: Vec<Field> = Vec::new();
        assert(fields_view(fields@) + fields_of(rest@) =~= fields_of(all));
        while rest.len() > 0
            invariant
                line_break@ == crlf(),
                colon_mark@ == colon(),
                fields_view(fields@) + fields_of(rest@) == fields_of(all),
            decreases rest@.len(),
        {
            let ghost before = rest@;
            let ghost done = fields_view(fields@);
            let k = find_bytes(rest, line_break.as_slice(), 0);
            let header_line = slice_subrange(rest, 0, k);
            assert(header_line@ =~= first_line(before));
            let next = if rest.len() - k >= 2 {
                slice_subrange(rest, k + 2, rest.len())
            } else {
                slice_subrange(rest, 0, 0)
            };
            assert(next@ =~= after_first_line(before));
            let c = find_bytes(header_line, colon_mark.as_slice(), 0);
            if c < header_line.len() {
                let name = slice_subrange(header_line, 0, c);
                let value = slice_subrange(header_line, c + 1, header_line.len());
                assert(name@ =~= header_line@.take(c as int));
                assert(value@ =~= header_line@.skip(c + 1));
                let key = slice_to_vec(trim_bytes(name));
                let val = slice_to_vec(trim_bytes(value));
                fields.push((key, val));
                assert(fields_view(fields@) =~= done + seq![(key@, val@)]);
                assert(field_of_line(header_line@) == Some((key@, val@)));
                assert(fields_of(before) == seq![(key@, val@)] + fields_of(next@));
                assert(fields_view(fields@) + fields_of(next@) =~= done + fields_of(before));
            } else {
                assert(field_of_line(header_line@) is None);
                assert(fields_of(before) == fields_of(next@));
            }
            rest = next;
        }
        assert(fields_view(fields@) =~= fields_of(all));
        Ok(Request { uri: slice_to_vec(requri), fields })
    }

    /// The request's target.
    pub fn uri(&self) -> (uri: &[u8])
        ensures
            uri@ == self@.uri,
    {
        self.uri.as_slice()
    }

    /// The value of the header field named `key`; of the last one, where
    /// several lines name it.
    pub fn get(&self, key: &[u8]) -> (value: Option<&[u8]>)
        ensures
            value is Some <==> lookup(self@.fields, key@) is Some,
            value matches Some(v) ==> lookup(self@.fields, key@) == Some(v@),
    {
        let ghost all = fields_view(self.fields@);
        let mut i: usize = self.fields.len();
        assert(all.take(i as int) =~= all);
        while i > 0
            invariant
                i <= self.fields@.len(),
                all == fields_view(self.fields@),
                lookup(all, key@) == lookup(all.take(i as int), key@),
            decreases i,
        {
            let ghost part = all.take(i as int);
            assert(part.last() == all[i - 1]);
            assert(part.drop_last() =~= all.take(i - 1));
            i -= 1;
            if bytes_equal(self.fields[i].0.as_slice(), key) {
                return Some(self.fields[i].1.as_slice());
            }
        }
        assert(all.take(0) =~= Seq::<FieldView>::empty());
        None
    }
}

/// Index of the first field at or after `from` that is named `key`; the
/// number of fields if there is none.
pub open spec fn key_index(fields: Seq<FieldView>, key: Seq<u8>, from: nat) -> nat
    decreases fields.len() - from,
{
    if from >= fields.len() {
        fields.len()
    } else if fields[from as int].0 == key {
        from
    } else {
        key_index(fields, key, from + 1)
    }
}

/// The fields once `key` is set to `value`: the field of that name gets the
/// value, and where there is none, a new field comes last.
pub open spec fn put_field(fields: Seq<FieldView>, key: Seq<u8>, value: Seq<u8>) -> Seq<
    FieldView,
> {
    let i = key_index(fields, key, 0);
    if i < fields.len() {
        fields.update(i as int, (key, value))
    } else {
        fields.push((key, value))
    }
}

/// No two fields have the same name.
pub open spec fn keys_distinct(fields: Seq<FieldView>) -> bool {
    forall|i: int, j: int| 0 <= i < j < fields.len() ==> fields[i].0 != fields[j].0
}

/// One header line: name, colon, space, value, line break.
pub open spec fn field_line(f: FieldView) -> Seq<u8> {
    f.0 + field_separator() + f.1 + crlf()
}

/// The header lines of the fields, in their order.
pub open spec fn field_lines(fields: Seq<FieldView>) -> Seq<u8>
    decreases fields.len(),
{
    if fields.len() == 0 {
        Seq::empty()
    } else {
        field_lines(fields.drop_last()) + field_line(fields.last())
    }
}

/// A response's status line, header fields and body, as plain byte strings.
pub struct ResponseView {
    pub status_line: Seq<u8>,
    pub fields: Seq<FieldView>,
    pub body: Option<Seq<u8>>,
}

/// The bytes of a response: status line, header lines, an empty line, then
/// the body if there is one.
pub open spec fn response_bytes(r: ResponseView) -> Seq<u8> {
    r.status_line + crlf() + field_lines(r.fields) + crlf() + (match r.body {
        Some(body) => body,
        None => Seq::empty(),
    })
}

/// `key_index` answers within `from ..= len`, names a field of that name
/// unless it answers `len`, and passes over no field of that name.
pub proof fn lemma_key_index(fields: Seq<FieldView>, key: Seq<u8>, from: nat)
    requires
        from <= fields.len(),
    ensures
        from <= key_index(fields, key, from) <= fields.len(),
        key_index(fields, key, from) < fields.len() ==> fields[key_index(
            fields,
            key,
            from,
        ) as int].0 == key,
        forall|i: int| from <= i < key_index(fields, key, from) ==> fields[i].0 != key,
    decreases fields.len() - from,
{
    if from >= fields.len() {
    } else if fields[from as int].0 == key {
    } else {
        lemma_key_index(fields, key, from + 1);
    }
}

/// Setting a field keeps names distinct, and a lookup then finds the value
/// that was set, and for any other name what it found before.
pub proof fn lemma_put_field(fields: Seq<FieldView>, key: Seq<u8>, value: Seq<u8>, other: Seq<u8>)
    requires
        keys_distinct(fields),
    ensures
        keys_distinct(put_field(fields, key, value)),
        lookup(put_field(fields, key, value), key) == Some(value),
        other != key ==> lookup(put_field(fields, key, value), other) == lookup(fields, other),
{
    lemma_key_index(fields, key, 0);
    let i = key_index(fields, key, 0);
    let after = put_field(fields, key, value);
    if i < fields.len() {
        lemma_lookup_distinct(after, i as int);
        lemma_lookup_update(fields, i as int, (key, value), other);
    } else {
        assert(after.last() == (key, value));
        assert(after.drop_last() =~= fields);
    }
}

/// Among distinct names a lookup finds the field of the name it is given.
proof fn lemma_lookup_distinct(fields: Seq<FieldView>, i: int)
    requires
        keys_distinct(fields),
        0 <= i < fields.len(),
    ensures
        lookup(fields, fields[i].0) == Some(fields[i].1),
    decreases fields.len(),
{
    if i == fields.len() - 1 {
    } else {
        lemma_lookup_distinct(fields.drop_last(), i);
    }
}

/// Replacing a field touches no lookup under another name than the two
/// involved.
proof fn lemma_lookup_update(fields: Seq<FieldView>, i: int, f: FieldView, other: Seq<u8>)
    requires
        0 <= i < fields.len(),
        fields[i].0 == f.0,
    ensures
        other != f.0 ==> lookup(fields.update(i, f), other) == lookup(fields, other),
    decreases fields.len(),
{
    let after = fields.update(i, f);
    if other != f.0 {
        if i == fields.len() - 1 {
            assert(after.drop_last() =~= fields.drop_last());
        } else {
            assert(after.drop_last() =~= fields.drop_last().update(i, f));
            lemma_lookup_update(fields.drop_last(), i, f, other);
        }
    }
}

/// A response under construction.
#[derive(Debug)]
pub struct Response {
    status_line: Vec<u8>,
    fields: Vec<Field>,
    body: Option<Vec<u8>>,
}

impl View for Response {
    type V = ResponseView;

    closed spec fn view(&self) -> ResponseView {
        ResponseView {
            status_line: self.status_line@,
            fields: fields_view(self.fields@),
            body: match self.body {
                Some(b) => Some(b@),
                None => None,
            },
        }
    }
}

impl Response {
    /// A response with the given status line, no header field and no body.
    pub fn new(status: &str) -> (r: Response)
        ensures
            r@ == (ResponseView {
                status_line: status.spec_bytes(),
                fields: Seq::empty(),
                body: None,
            }),
    {
        let r = Response {
            status_line: slice_to_vec(status.as_bytes()),
            fields: Vec::new(),
            body: None,
        };
        assert(fields_view(r.fields@) =~= Seq::<FieldView>::empty());
        r
    }

    /// Sets the header field `key` to `value`.
    pub fn set(&mut self, key: &str, value: &str)
        ensures
            final(self)@ == (ResponseView {
                fields: put_field(old(self)@.fields, key.spec_bytes(), value.spec_bytes()),
                ..old(self)@
            }),
            keys_distinct(old(self)@.fields) ==> keys_distinct(final(self)@.fields),
    {
        let ghost before = fields_view(self.fields@);
        let name = key.as_bytes();
        let val = slice_to_vec(value.as_bytes());
        proof {
            lemma_key_index(before, name@, 0);
            if keys_distinct(before) {
                lemma_put_field(before, name@, val@, name@);
            }
        }
        let mut i: usize = 0;
        while i < self.fields.len()
            invariant
                i <= self.fields@.len(),
                before == fields_view(self.fields@),
                before == old(self)@.fields,
                self.status_line == old(self).status_line,
                self.body == old(self).body,
                name@ == key.spec_bytes(),
                val@ == value.spec_bytes(),
                key_index(before, name@, 0) == key_index(before, name@, i as nat),
                keys_distinct(before) ==> keys_distinct(put_field(before, name@, val@)),
            decreases self.fields@.len() - i,
        {
            if bytes_equal(self.fields[i].0.as_slice(), name) {
                self.fields[i] = (slice_to_vec(name), val);
                assert(fields_view(self.fields@) =~= before.update(i as int, (name@, val@)));
                return ;
            }
            i += 1;
        }
        self.fields.push((slice_to_vec(name), val));
        assert(fields_view(self.fields@) =~= before.push((name@, val@)));
    }

    /// Sets the body.
    pub fn set_body(&mut self, body: &[u8])
        ensures
            final(self)@ == (ResponseView { body: Some(body@), ..old(self)@ }),
    {
        self.body = Some(slice_to_vec(body));
    }

    /// The response's status line.
    pub fn status_line(&self) -> (line: &[u8])
        ensures
            line@ == self@.status_line,
    {
        self.status_line.as_slice()
    }

    /// The value of the header field named `key`.
    pub fn get(&self, key: &str) -> (value: Option<&[u8]>)
        ensures
            value is Some <==> lookup(self@.fields, key.spec_bytes()) is Some,
            value matches Some(v) ==> lookup(self@.fields, key.spec_bytes()) == Some(v@),
    {
        let ghost all = fields_view(self.fields@);
        let name = key.as_bytes();
        let mut i: usize = self.fields.len();
        assert(all.take(i as int) =~= all);
        while i > 0
            invariant
                i <= self.fields@.len(),
                all == fields_view(self.fields@),
                name@ == key.spec_bytes(),
                lookup(all, name@) == lookup(all.take(i as int), name@),
            decreases i,
        {
            let ghost part = all.take(i as int);
            assert(part.last() == all[i - 1]);
            assert(part.drop_last() =~= all.take(i - 1));
            i -= 1;
            if bytes_equal(self.fields[i].0.as_slice(), name) {
                return Some(self.fields[i].1.as_slice());
            }
        }
        assert(all.take(0) =~= Seq::<FieldView>::empty());
        None
    }

    /// The bytes to send: status line, header lines in the order in which
    /// their names were first set, an empty line, and the body.
    pub fn to_bytes(&self) -> (out: Vec<u8>)
        ensures
            out@ == response_bytes(self@),
    {
        let line_break: [u8; 2] = [0x0d, 0x0a];
        let separator: [u8; 2] = [0x3a, 0x20];
        assert(line_break@ =~= crlf());
        assert(separator@ =~= field_separator());
        let ghost all = fields_view(self.fields@);
        let mut out: Vec<u8> = Vec::new();
        out.extend_from_slice(self.status_line.as_slice());
        out.extend_from_slice(line_break.as_slice());
        assert(all.take(0) =~= Seq::<FieldView>::empty());
        assert(out@ =~= self.status_line@ + crlf() + field_lines(all.take(0)));
        let mut i: usize = 0;
        while i < self.fields.len()
            invariant
                i <= self.fields@.len(),
                all == fields_view(self.fields@),
                line_break@ == crlf(),
                separator@ == field_separator(),
                out@ == self.status_line@ + crlf() + field_lines(all.take(i as int)),
            decreases self.fields@.len() - i,
        {
            let ghost head = out@;
            let ghost part = all.take(i + 1);
            assert(part.last() == all[i as int]);
            assert(part.drop_last() =~= all.take(i as int));
            out.extend_from_slice(self.fields[i].0.as_slice());
            out.extend_from_slice(separator.as_slice());
            out.extend_from_slice(self.fields[i].1.as_slice());
            out.extend_from_slice(line_break.as_slice());
            assert(out@ =~= head + field_line(all[i as int]));
            i += 1;
            assert(out@ =~= self.status_line@ + crlf() + field_lines(all.take(i as int)));
        }
        assert(all.take(i as int) =~= all);
        out.extend_from_slice(line_break.as_slice());
        match &self.body {
            Some(body) => {
                out.extend_from_slice(body.as_slice());
            },
            None => {
                assert(out@ =~= response_bytes(self@));
            },
        }
        out
    }
}

} // verus!
