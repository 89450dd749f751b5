//! Header sets: pairs of a name and a value, held the way `http` holds
//! them. Names are checked and put in lower case by
//! `http::header::HeaderName`, values are checked by
//! `http::header::HeaderValue`, so a set holds nothing that could not stand
//! in an HTTP message.

use vstd::prelude::*;
use vstd::utf8::encode_utf8;
use crate::errors::ClientError;
use crate::trailers::{bytes_eq, lower_seq, EntryView};

verus! {

/// The error of `http::header::HeaderName::from_bytes`.
#[verifier::external_type_specification]
#[verifier::external_body]
pub struct ExInvalidHeaderName(http::header::InvalidHeaderName);

/// The error of `http::header::HeaderValue::from_str`.
#[verifier::external_type_specification]
#[verifier::external_body]
pub struct ExInvalidHeaderValue(http::header::InvalidHeaderValue);

/// The error of `http::StatusCode::from_u16`.
#[verifier::external_type_specification]
#[verifier::external_body]
pub struct ExInvalidStatusCode(http::status::InvalidStatusCode);

/// Whether `c` may stand in a header name: a letter, a digit, or one of
/// ``! " # $ % & ' * + - . ^ _ ` | ~``.
pub open spec fn is_name_byte(c: u8) -> bool {
    33 <= c <= 39 || c == 42 || c == 43 || c == 45 || c == 46 || 48 <= c <= 57 || 65 <= c <= 90
        || 94 <= c <= 122 || c == 124 || c == 126
}

/// Whether `name` is a header name: between 1 and 65535 bytes, each of
/// which may stand in a name.
pub open spec fn is_header_name(name: Seq<u8>) -> bool {
    &&& 1 <= name.len() <= 65535
    &&& forall|i: int| 0 <= i < name.len() ==> is_name_byte(#[trigger] name[i])
}

/// Whether `c` may stand in a header value: a tab, or any byte from 32 on
/// but 127.
pub open spec fn is_value_byte(c: u8) -> bool {
    c >= 32 && c != 127 || c == 9
}

/// Whether every byte of `value` may stand in a header value.
pub open spec fn is_header_value(value: Seq<u8>) -> bool {
    forall|i: int| 0 <= i < value.len() ==> is_value_byte(#[trigger] value[i])
}

/// Whether `c` is visible ASCII: a tab, or a byte from 32 to 126.
pub open spec fn is_visible_byte(c: u8) -> bool {
    c >= 32 && c < 127 || c == 9
}

/// Whether `value` can be shown as a string: every byte is visible ASCII.
pub open spec fn is_visible(value: Seq<u8>) -> bool {
    forall|i: int| 0 <= i < value.len() ==> is_visible_byte(#[trigger] value[i])
}

/// Whether `status` is an HTTP status code: from 100 to 999.
pub open spec fn is_status(status: u16) -> bool {
    100 <= status < 1000
}

/// Calls `http::header::HeaderName::from_bytes` and returns the name's
/// `as_str` as bytes. Not proved: that the call accepts exactly the names of
/// [`is_header_name`], and that the name it returns is the input with its
/// ASCII capitals in lower case.
#[verifier::external_body]
fn header_name_from_bytes(src: &[u8]) -> (out: Result<Vec<u8>, http::header::InvalidHeaderName>)
    ensures
        out is Ok <==> is_header_name(src@),
        out is Ok ==> out->Ok_0@ == lower_seq(src@),
{
    match http::header::HeaderName::from_bytes(src) {
        Ok(name) => Ok(name.as_str().as_bytes().to_vec()),
        Err(e) => Err(e),
    }
}

/// Calls `http::header::HeaderValue::from_str` and returns the value's
/// bytes. Not proved: that the call accepts exactly the strings whose bytes
/// all satisfy [`is_value_byte`], and that the value holds the bytes of
/// the string unchanged.
#[verifier::external_body]
fn header_value_from_str(src: &str) -> (out: Result<Vec<u8>, http::header::InvalidHeaderValue>)
    ensures
        out is Ok <==> is_header_value(encode_utf8(src@)),
        out is Ok ==> out->Ok_0@ == encode_utf8(src@),
{
    match http::header::HeaderValue::from_str(src) {
        Ok(value) => Ok(value.as_bytes().to_vec()),
        Err(e) => Err(e),
    }
}

/// Calls `http::header::HeaderValue::from_bytes` and returns the value's
/// bytes. Not proved: that the call accepts exactly the byte strings whose
/// bytes all satisfy [`is_value_byte`], and that the value holds them
/// unchanged.
#[verifier::external_body]
fn header_value_from_bytes(src: &[u8]) -> (out: Result<Vec<u8>, http::header::InvalidHeaderValue>)
    ensures
        out is Ok <==> is_header_value(src@),
        out is Ok ==> out->Ok_0@ == src@,
{
    match http::header::HeaderValue::from_bytes(src) {
        Ok(value) => Ok(value.as_bytes().to_vec()),
        Err(e) => Err(e),
    }
}

/// Calls `http::StatusCode::from_u16` and returns the code's number. Not
/// proved: that the call accepts exactly the numbers from 100 to 999, and
/// that the code holds the number unchanged.
#[verifier::external_body]
fn status_code_from_u16(src: u16) -> (out: Result<u16, http::status::InvalidStatusCode>)
    ensures
        out is Ok <==> is_status(src),
        out is Ok ==> out->Ok_0 == src,
{
    match http::StatusCode::from_u16(src) {
        Ok(code) => Ok(code.as_u16()),
        Err(e) => Err(e),
    }
}

/// Checks a status code: the code itself, or `None` where it is none.
pub fn checked_status(status: u16) -> (out: Option<u16>)
    ensures
        out == if is_status(status) { Some(status) } else { None },
{
    match status_code_from_u16(status) {
        Ok(code) => Some(code),
        Err(_) => None,
    }
}

/// The pairs of `es` whose name is not `name`.
pub open spec fn without(es: Seq<EntryView>, name: Seq<u8>) -> Seq<EntryView>
    decreases es.len(),
{
    if es.len() == 0 {
        Seq::empty()
    } else if es.last().0 == name {
        without(es.drop_last(), name)
    } else {
        without(es.drop_last(), name).push(es.last())
    }
}

/// The value of the first pair of `es` whose name is `name`.
pub open spec fn first_value(es: Seq<EntryView>, name: Seq<u8>) -> Option<Seq<u8>>
    decreases es.len(),
{
    if es.len() == 0 {
        None
    } else if es[0].0 == name {
        Some(es[0].1)
    } else {
        first_value(es.skip(1), name)
    }
}

/// Whether every pair of `es` could stand in an HTTP message: the name is a
/// header name in lower case, the value a header value.
pub open spec fn all_valid(es: Seq<EntryView>) -> bool {
    forall|i: int|
        0 <= i < es.len() ==> is_header_name((#[trigger] es[i]).0) && lower_seq(es[i].0) == es[i].0
            && is_header_value(es[i].1)
}

/// `es` with the pair `name`, `value` set: pairs of that name leave, and
/// the new pair comes last.
pub open spec fn with_set(es: Seq<EntryView>, name: Seq<u8>, value: Seq<u8>) -> Seq<EntryView> {
    without(es, lower_seq(name)).push((lower_seq(name), value))
}

/// `es` with the pair `name`, `value` behind the others.
pub open spec fn with_appended(es: Seq<EntryView>, name: Seq<u8>, value: Seq<u8>) -> Seq<
    EntryView,
> {
    es.push((lower_seq(name), value))
}

/// Putting a name in lower case twice changes nothing more.
pub proof fn lemma_lower_twice(s: Seq<u8>)
    ensures
        lower_seq(lower_seq(s)) == lower_seq(s),
        is_header_name(s) ==> is_header_name(lower_seq(s)),
{
    assert(lower_seq(lower_seq(s)) =~= lower_seq(s));
    if is_header_name(s) {
        assert forall|i: int| 0 <= i < lower_seq(s).len() implies is_name_byte(
            #[trigger] lower_seq(s)[i],
        ) by {
            assert(is_name_byte(s[i]));
        }
    }
}

/// Leaving pairs out keeps the others valid, and leaves none of that name.
pub proof fn lemma_without(es: Seq<EntryView>, name: Seq<u8>)
    ensures
        all_valid(es) ==> all_valid(without(es, name)),
        first_value(without(es, name), name) is None,
        without(es, name).len() <= es.len(),
    decreases es.len(),
{
    if es.len() > 0 {
        let init = es.drop_last();
        lemma_without(init, name);
        if all_valid(es) {
            assert forall|i: int| 0 <= i < init.len() implies is_header_name(
                (#[trigger] init[i]).0,
            ) && lower_seq(init[i].0) == init[i].0 && is_header_value(init[i].1) by {
                assert(init[i] == es[i]);
            }
        }
        if es.last().0 != name {
            lemma_first_value_push(without(init, name), es.last(), name);
        }
    }
}

/// Leaving out the pairs of one name does not touch what another name finds.
pub proof fn lemma_without_other(es: Seq<EntryView>, gone: Seq<u8>, name: Seq<u8>)
    requires
        gone != name,
    ensures
        first_value(without(es, gone), name) == first_value(es, name),
    decreases es.len(),
{
    if es.len() > 0 {
        let init = es.drop_last();
        lemma_without_other(init, gone, name);
        assert(init.push(es.last()) == es);
        lemma_first_value_push(init, es.last(), name);
        if es.last().0 != gone {
            lemma_first_value_push(without(init, gone), es.last(), name);
        }
    }
}

/// A header that was set is found with the value it was set to, and every
/// other name finds what it found before.
pub proof fn lemma_with_set(es: Seq<EntryView>, name: Seq<u8>, value: Seq<u8>, other: Seq<u8>)
    ensures
        first_value(with_set(es, name, value), lower_seq(name)) == Some(value),
        other != lower_seq(name) ==> first_value(with_set(es, name, value), other) == first_value(
            es,
            other,
        ),
{
    let key = lower_seq(name);
    lemma_without(es, key);
    lemma_first_value_push(without(es, key), (key, value), key);
    if other != key {
        lemma_without_other(es, key, other);
        lemma_first_value_push(without(es, key), (key, value), other);
    }
}

/// A pair behind the others is found only where no earlier pair has the name.
pub proof fn lemma_first_value_push(es: Seq<EntryView>, e: EntryView, name: Seq<u8>)
    ensures
        first_value(es.push(e), name) == if first_value(es, name) is Some {
            first_value(es, name)
        } else if e.0 == name {
            Some(e.1)
        } else {
            None
        },
    decreases es.len(),
{
    let all = es.push(e);
    if es.len() == 0 {
        assert(all[0] == e);
        assert(all.skip(1) == Seq::<EntryView>::empty());
        assert(first_value(all.skip(1), name) is None);
    } else {
        assert(all[0] == es[0]);
        assert(all.skip(1) == es.skip(1).push(e));
        lemma_first_value_push(es.skip(1), e, name);
    }
}

/// The pairs of a sequence of entries, as bytes.
pub open spec fn pair_views(entries: Seq<(Vec<u8>, Vec<u8>)>) -> Seq<EntryView> {
    Seq::new(entries.len(), |i: int| (entries[i].0@, entries[i].1@))
}

/// A set of headers: pairs of a name in lower case and a value, in order.
/// One name may stand in several pairs.
#[derive(Debug)]
pub struct HeaderSet {
    entries: Vec<(Vec<u8>, Vec<u8>)>,
}

impl View for HeaderSet {
    type V = Seq<EntryView>;

    closed spec fn view(&self) -> Seq<EntryView> {
        pair_views(self.entries@)
    }
}

impl HeaderSet {
    /// Whether the set holds only what could stand in an HTTP message. The
    /// empty set does, and [`HeaderSet::append`] and [`HeaderSet::set`] keep
    /// it so.
    pub open spec fn wf(&self) -> bool {
        all_valid(self@)
    }

    /// The empty set.
    pub fn new() -> (set: Self)
        ensures
            set@ == Seq::<EntryView>::empty(),
            set.wf(),
    {
        let set = HeaderSet { entries: Vec::new() };
        assert(set@ =~= Seq::<EntryView>::empty());
        set
    }

    /// The number of pairs.
    pub fn len(&self) -> (n: usize)
        ensures
            n == self@.len(),
    {
        self.entries.len()
    }

    /// The name of the pair at `index`.
    pub fn name_at(&self, index: usize) -> (name: &Vec<u8>)
        requires
            index < self@.len(),
        ensures
            name@ == self@[index as int].0,
    {
        &self.entries[index].0
    }

    /// The value of the pair at `index`.
    pub fn value_at(&self, index: usize) -> (value: &Vec<u8>)
        requires
            index < self@.len(),
        ensures
            value@ == self@[index as int].1,
    {
        &self.entries[index].1
    }

    /// Checks a name and a value as `http` does, and returns the name in
    /// lower case and the value as bytes.
    fn checked(name: &str, value: &str) -> (out: Result<(Vec<u8>, Vec<u8>), ClientError>)
        ensures
            match out {
                Ok(pair) => is_header_name(encode_utf8(name@)) && is_header_value(
                    encode_utf8(value@),
                ) && pair.0@ == lower_seq(encode_utf8(name@)) && pair.1@ == encode_utf8(value@),
                Err(e) => e == if !is_header_name(encode_utf8(name@)) {
                    ClientError::InvalidHeaderName
                } else {
                    ClientError::InvalidHeaderValue
                } && !(is_header_name(encode_utf8(name@)) && is_header_value(encode_utf8(value@))),
            },
    {
        let lowered: Vec<u8> = match header_name_from_bytes(name.as_bytes()) {
            Ok(lowered) => lowered,
            Err(_) => { return Err(ClientError::InvalidHeaderName); },
        };
        let bytes: Vec<u8> = match header_value_from_str(value) {
            Ok(bytes) => bytes,
            Err(_) => { return Err(ClientError::InvalidHeaderValue); },
        };
        Ok((lowered, bytes))
    }

    /// Adds a pair behind the others. The name is refused where it is no
    /// header name, then the value where it is no header value; the set is
    /// then left as it was.
    pub fn append(&mut self, name: &str, value: &str) -> (out: Result<(), ClientError>)
        ensures
            match out {
                Ok(_) => is_header_name(encode_utf8(name@)) && is_header_value(encode_utf8(value@))
                    && final(self)@ == with_appended(
                    old(self)@,
                    encode_utf8(name@),
                    encode_utf8(value@),
                ),
                Err(e) => e == if !is_header_name(encode_utf8(name@)) {
                    ClientError::InvalidHeaderName
                } else {
                    ClientError::InvalidHeaderValue
                } && !(is_header_name(encode_utf8(name@)) && is_header_value(encode_utf8(value@)))
                    && final(self)@ == old(self)@,
            },
            old(self).wf() ==> final(self).wf(),
    {
        match HeaderSet::checked(name, value) {
            Ok((lowered, bytes)) => {
                proof {
                    lemma_lower_twice(encode_utf8(name@));
                }
                self.put(lowered, bytes);
                Ok(())
            },
            Err(e) => Err(e),
        }
    }

    /// Adds a pair whose value is given as bytes, which need not be text,
    /// behind the others. The name and the value are checked as in
    /// [`HeaderSet::append`].
    pub fn append_opaque(&mut self, name: &str, value: &[u8]) -> (out: Result<(), ClientError>)
        ensures
            match out {
                Ok(_) => is_header_name(encode_utf8(name@)) && is_header_value(value@)
                    && final(self)@ == with_appended(old(self)@, encode_utf8(name@), value@),
                Err(e) => e == if !is_header_name(encode_utf8(name@)) {
                    ClientError::InvalidHeaderName
                } else {
                    ClientError::InvalidHeaderValue
                } && !(is_header_name(encode_utf8(name@)) && is_header_value(value@))
                    && final(self)@ == old(self)@,
            },
            old(self).wf() ==> final(self).wf(),
    {
        let lowered: Vec<u8> = match header_name_from_bytes(name.as_bytes()) {
            Ok(lowered) => lowered,
            Err(_) => { return Err(ClientError::InvalidHeaderName); },
        };
        let bytes: Vec<u8> = match header_value_from_bytes(value) {
            Ok(bytes) => bytes,
            Err(_) => { return Err(ClientError::InvalidHeaderValue); },
        };
        proof {
            lemma_lower_twice(encode_utf8(name@));
        }
        self.put(lowered, bytes);
        Ok(())
    }

    /// Sets a header: every pair of that name leaves and the new pair comes
    /// last. The name and the value are checked as in [`HeaderSet::append`].
    pub fn set(&mut self, name: &str, value: &str) -> (out: Result<(), ClientError>)
        ensures
            match out {
                Ok(_) => is_header_name(encode_utf8(name@)) && is_header_value(encode_utf8(value@))
                    && final(self)@ == with_set(old(self)@, encode_utf8(name@), encode_utf8(value@)),
                Err(e) => e == if !is_header_name(encode_utf8(name@)) {
                    ClientError::InvalidHeaderName
                } else {
                    ClientError::InvalidHeaderValue
                } && !(is_header_name(encode_utf8(name@)) && is_header_value(encode_utf8(value@)))
                    && final(self)@ == old(self)@,
            },
            old(self).wf() ==> final(self).wf(),
    {
        match HeaderSet::checked(name, value) {
            Ok((lowered, bytes)) => {
                proof {
                    lemma_lower_twice(encode_utf8(name@));
                }
                self.replace(lowered, bytes);
                Ok(())
            },
            Err(e) => Err(e),
        }
    }

    /// Adds a checked pair behind the others.
    fn put(&mut self, name: Vec<u8>, value: Vec<u8>)
        requires
            is_header_name(name@),
            lower_seq(name@) == name@,
            is_header_value(value@),
        ensures
            final(self)@ == old(self)@.push((name@, value@)),
            old(self).wf() ==> final(self).wf(),
    {
        let ghost before = self@;
        self.entries.push((name, value));
        assert(self@ =~= before.push((name@, value@)));
    }

    /// Sets a pair as it stands: pairs of that name leave, the new pair
    /// comes last.
    pub(crate) fn replace(&mut self, name: Vec<u8>, value: Vec<u8>)
        ensures
            final(self)@ == without(old(self)@, name@).push((name@, value@)),
            old(self).wf() && is_header_name(name@) && lower_seq(name@) == name@ && is_header_value(
                value@,
            ) ==> final(self).wf(),
    {
        let ghost before = self@;
        let mut kept: Vec<(Vec<u8>, Vec<u8>)> = Vec::new();
        let mut i: usize = 0;
        assert(before.take(0) == Seq::<EntryView>::empty());
        while i < self.entries.len()
            invariant
                i <= self.entries.len(),
                before == self@,
                before == pair_views(self.entries@),
                pair_views(kept@) == without(before.take(i as int), name@),
            decreases self.entries.len() - i,
        {
            let ghost upto = before.take(i + 1);
            assert(upto.drop_last() == before.take(i as int));
            assert(upto.last() == before[i as int]);
            let ghost sofar = pair_views(kept@);
            if !bytes_eq(self.entries[i].0.as_slice(), name.as_slice()) {
                let n: Vec<u8> = self.entries[i].0.clone();
                let v: Vec<u8> = self.entries[i].1.clone();
                assert(n@ == before[i as int].0);
                assert(v@ == before[i as int].1);
                kept.push((n, v));
                assert(pair_views(kept@) =~= sofar.push(before[i as int]));
            }
            i = i + 1;
        }
        assert(before.take(self.entries.len() as int) == before);
        proof {
            lemma_without(before, name@);
        }
        let ghost rest = pair_views(kept@);
        kept.push((name, value));
        assert(pair_views(kept@) =~= rest.push((name@, value@)));
        self.entries = kept;
    }

    /// The value of the first pair with this name, whatever the case of
    /// `name`.
    pub fn get(&self, name: &str) -> (value: Option<&Vec<u8>>)
        ensures
            match value {
                Some(v) => first_value(self@, lower_seq(encode_utf8(name@))) == Some(v@),
                None => first_value(self@, lower_seq(encode_utf8(name@))) is None,
            },
    {
        let key: Vec<u8> = lowered_bytes(name.as_bytes());
        let mut i: usize = 0;
        assert(self@.skip(0) == self@);
        while i < self.entries.len()
            invariant
                i <= self.entries.len(),
                key@ == lower_seq(encode_utf8(name@)),
                first_value(self@, key@) == first_value(self@.skip(i as int), key@),
            decreases self.entries.len() - i,
        {
            assert(self@.skip(i as int)[0] == self@[i as int]);
            assert(self@.skip(i as int).skip(1) == self@.skip(i + 1));
            if bytes_eq(self.entries[i].0.as_slice(), key.as_slice()) {
                return Some(&self.entries[i].1);
            }
            i = i + 1;
        }
        None
    }
}

/// `s` with every ASCII capital in lower case.
pub fn lowered_bytes(s: &[u8]) -> (out: Vec<u8>)
    ensures
        out@ == lower_seq(s@),
{
    let mut out: Vec<u8> = Vec::new();
    let mut i: usize = 0;
    while i < s.len()
        invariant
            i <= s.len(),
            out@.len() == i,
            forall|j: int| 0 <= j < i ==> out@[j] == crate::trailers::lower(s@[j]),
        decreases s.len() - i,
    {
        let c: u8 = s[i];
        out.push(if 65 <= c && c <= 90 { c + 32 } else { c });
        i = i + 1;
    }
    assert(out@ =~= lower_seq(s@));
    out
}

} // verus!
