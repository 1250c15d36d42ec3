//! Laws that relate the encoder and the decoder, and the decoder's
//! treatment of attributes.
use vstd::prelude::*;
use vstd::utf8::encode_utf8;

use crate::de::{
    attribute_skip_spec, de_any_spec, de_bool_spec, de_f64_spec, de_i64_spec, de_map_spec,
    de_option_spec, de_seq_spec, de_u64_spec, de_unit_spec, peek_spec, shifted, skip_any_spec,
    skip_values_spec, str_spec, tagged_spec, text_spec, StringKind,
};
use crate::error::Error;
use crate::prefix::{lemma_attribute_prefix, lemma_map_prefix, lemma_peek_prefix, lemma_values_prefix};
use crate::ser::{i64_frame, tagged_frame};
use crate::wire::{
    crlf, decimal_digits, ident_spec, is_digit, is_eol, lemma_decimal_digits, lemma_digit_run_all,
    lemma_text_run_all, unsigned_spec, ATTRIBUTE, CR, DIGIT_ZERO, MAP, MINUS, NUMBER,
};

verus! {

broadcast use {vstd::utf8::encode_utf8_valid_utf8, vstd::utf8::encode_utf8_decode_utf8};

proof fn lemma_crlf_ident(rest: Seq<u8>)
    ensures
        ident_spec(crlf() + rest, crlf()) == Ok::<nat, Error>(2),
{
    assert((crlf() + rest).take(2) =~= crlf());
}

/// The digits of `n`, then CR LF and anything, read back as `n`.
proof fn lemma_unsigned_digits(n: nat, max: nat, rest: Seq<u8>)
    requires
        n <= max,
    ensures
        unsigned_spec(decimal_digits(n) + crlf() + rest, max) == Ok::<(nat, nat), Error>(
            (n, decimal_digits(n).len()),
        ),
{
    lemma_decimal_digits(n);
    let d = decimal_digits(n);
    let s = d + crlf() + rest;
    assert(s =~= d + (crlf() + rest));
    lemma_digit_run_all(d, crlf() + rest);
    assert(s.take(d.len() as int) =~= d);
    assert(s[0] == d[0]);
    if d[0] == DIGIT_ZERO {
        assert(n == 0);
        assert(d =~= seq![DIGIT_ZERO]);
        assert(s[1] == CR);
    }
}

/// Encoding a signed 64-bit integer and decoding the frame (followed by
/// anything) gives the integer back, for every value but the smallest.
pub proof fn lemma_i64_round_trip(v: i64, rest: Seq<u8>, skip: bool)
    requires
        v != i64::MIN,
    ensures
        de_i64_spec(i64_frame(v as int) + rest, skip) == Ok::<(int, nat), Error>(
            (v as int, i64_frame(v as int).len()),
        ),
{
    let f = i64_frame(v as int);
    let s = f + rest;
    assert(s[0] == NUMBER);
    assert(peek_spec(s, skip) == Ok::<nat, Error>(0));
    assert(s.skip(0) =~= s);
    let u = s.skip(1);
    if v < 0 {
        let n = (-v) as nat;
        lemma_decimal_digits(n);
        assert(u =~= seq![MINUS] + (decimal_digits(n) + crlf() + rest));
        assert(u.skip(1) =~= decimal_digits(n) + crlf() + rest);
        lemma_unsigned_digits(n, i64::MAX as nat, rest);
        assert(u.skip((1 + decimal_digits(n).len()) as int) =~= crlf() + rest);
        lemma_crlf_ident(rest);
    } else {
        let n = v as nat;
        lemma_decimal_digits(n);
        assert(u =~= decimal_digits(n) + crlf() + rest);
        assert(is_digit(u[0]));
        lemma_unsigned_digits(n, i64::MAX as nat, rest);
        assert(u.skip(decimal_digits(n).len() as int) =~= crlf() + rest);
        lemma_crlf_ident(rest);
    }
}

/// Encoding text as a blob string or blob error and decoding the frame
/// (followed by anything) as the same kind gives the text back.
pub proof fn lemma_blob_round_trip(kind: StringKind, text: Seq<char>, rest: Seq<u8>, skip: bool)
    requires
        kind.is_blob(),
        encode_utf8(text).len() <= usize::MAX,
    ensures
        tagged_spec(tagged_frame(kind, encode_utf8(text)) + rest, skip, kind) == Ok::<
            (Seq<char>, nat),
            Error,
        >((text, tagged_frame(kind, encode_utf8(text)).len())),
{
    let p = encode_utf8(text);
    let d = decimal_digits(p.len());
    lemma_decimal_digits(p.len());
    let f = tagged_frame(kind, p);
    let s = f + rest;
    assert(s[0] == kind.marker() && kind.marker() != ATTRIBUTE);
    assert(peek_spec(s, skip) == Ok::<nat, Error>(0));
    assert(s.skip(0) =~= s);
    let b = s.skip(1);
    assert(b =~= d + crlf() + (p + crlf() + rest));
    lemma_unsigned_digits(p.len(), usize::MAX as nat, p + crlf() + rest);
    assert(b.skip(d.len() as int) =~= crlf() + (p + crlf() + rest));
    lemma_crlf_ident(p + crlf() + rest);
    let h = d.len() + 2;
    assert(b.skip(h as int) =~= p + (crlf() + rest));
    assert(b.skip((h + p.len()) as int) =~= crlf() + rest);
    lemma_crlf_ident(rest);
    assert(b.subrange(h as int, (h + p.len()) as int) =~= p);
}

/// Encoding text as a simple string or simple error and decoding the frame
/// (followed by anything) as the same kind gives the text back, where the
/// text holds no CR or LF.
pub proof fn lemma_simple_round_trip(kind: StringKind, text: Seq<char>, rest: Seq<u8>, skip: bool)
    requires
        !kind.is_blob(),
        forall|i: int| 0 <= i < encode_utf8(text).len() ==> !is_eol(#[trigger] encode_utf8(text)[i]),
    ensures
        tagged_spec(tagged_frame(kind, encode_utf8(text)) + rest, skip, kind) == Ok::<
            (Seq<char>, nat),
            Error,
        >((text, tagged_frame(kind, encode_utf8(text)).len())),
{
    let p = encode_utf8(text);
    let f = tagged_frame(kind, p);
    let s = f + rest;
    assert(s[0] == kind.marker() && kind.marker() != ATTRIBUTE);
    assert(peek_spec(s, skip) == Ok::<nat, Error>(0));
    assert(s.skip(0) =~= s);
    let b = s.skip(1);
    assert(b =~= p + (crlf() + rest));
    lemma_text_run_all(p, crlf() + rest);
    assert(b.skip(p.len() as int) =~= crlf() + rest);
    lemma_crlf_ident(rest);
    assert(b.take(p.len() as int) =~= p);
}

/// A successful read that consumed `k` more bytes.
pub open spec fn shifted_read<T>(r: Result<(T, nat), Error>, k: nat) -> Result<(T, nat), Error> {
    match r {
        Ok((v, n)) => Ok((v, k + n)),
        Err(e) => Err(e),
    }
}

/// Attribute transparency: for a whole attribute frame `a` and any value
/// `v`, every read that skips attributes gives on `a` followed by `v` what
/// it gives on `v` alone, having consumed `a` as well. Attributes at the
/// start of `v` are skipped in both, so nested and repeated attributes are
/// covered too.
pub proof fn lemma_attribute_transparent(a: Seq<u8>, v: Seq<u8>)
    requires
        attribute_skip_spec(a) == Ok::<nat, Error>(a.len()),
    ensures
        peek_spec(a + v, true) == shifted(peek_spec(v, true), a.len()),
        v.len() > 0 && v[0] != ATTRIBUTE ==> peek_spec(a + v, true) == Ok::<nat, Error>(a.len()),
        (a + v).skip(a.len() as int) == v,
        de_bool_spec(a + v, true) == shifted_read(de_bool_spec(v, true), a.len()),
        de_i64_spec(a + v, true) == shifted_read(de_i64_spec(v, true), a.len()),
        de_u64_spec(a + v, true) == shifted_read(de_u64_spec(v, true), a.len()),
        de_f64_spec(a + v, true) == shifted_read(de_f64_spec(v, true), a.len()),
        text_spec(a + v, true) == shifted_read(text_spec(v, true), a.len()),
        str_spec(a + v, true) == shifted_read(str_spec(v, true), a.len()),
        forall|kind: StringKind|
            #![trigger tagged_spec(a + v, true, kind)]
            tagged_spec(a + v, true, kind) == shifted_read(tagged_spec(v, true, kind), a.len()),
        de_option_spec(a + v, true) == shifted_read(de_option_spec(v, true), a.len()),
        de_unit_spec(a + v, true) == shifted(de_unit_spec(v, true), a.len()),
        de_seq_spec(a + v, true) == shifted_read(de_seq_spec(v, true), a.len()),
        de_any_spec(a + v, true) == shifted_read(de_any_spec(v, true), a.len()),
        skip_any_spec(a + v) == shifted(skip_any_spec(v), a.len()),
        de_map_spec(a + v, true) == match de_map_spec(v, true) {
            Ok((c, f, n)) => Ok((c, f, a.len() + n)),
            Err(e) => Err(e),
        },
{
    lemma_attribute_prefix(a, v);
    lemma_attribute_peek(a, v);
    if peek_spec(v, true) is Ok {
        lemma_transparent_scalars(a, v);
        lemma_transparent_text(a, v);
        assert forall|kind: StringKind|
            #![trigger tagged_spec(a + v, true, kind)]
            tagged_spec(a + v, true, kind) == shifted_read(tagged_spec(v, true, kind), a.len()) by {
            lemma_transparent_tagged(a, v, kind);
        }
        lemma_transparent_headers(a, v);
        lemma_transparent_skip(a, v);
    }
}

/// The map frame with the entries of an attribute frame: `%` in place of
/// its leading `|`.
pub open spec fn map_form(a: Seq<u8>) -> Seq<u8> {
    seq![MAP] + a.skip(1)
}

/// Attribute capture: while a value with its attribute is read, attributes
/// are not skipped, so a whole attribute frame `a` before a value `v` is
/// read as a map. Its header reads from `a` followed by `v` exactly as the
/// header of `map_form(a)` read alone (count, attributes skipped inside,
/// bytes), and the entries that follow are the same bytes in both, with `v`
/// after them on one side. By the prefix lemmas every successful read of
/// those entries gives the same on both sides, so the attribute decodes as
/// `map_form(a)` decodes alone. Once `a` is consumed, what is left is `v`,
/// read as on its own.
pub proof fn lemma_attribute_capture(a: Seq<u8>, v: Seq<u8>)
    requires
        attribute_skip_spec(a) == Ok::<nat, Error>(a.len()),
    ensures
        peek_spec(a + v, false) == Ok::<nat, Error>(0),
        de_map_spec(a, false) is Ok,
        de_map_spec(a + v, false) == de_map_spec(a, false),
        de_map_spec(a + v, false) == de_map_spec(map_form(a), true),
        de_map_spec(a, false)->Ok_0.1,
        de_map_spec(a, false)->Ok_0.2 <= a.len(),
        (a + v).skip(de_map_spec(a, false)->Ok_0.2 as int) == map_form(a).skip(
            de_map_spec(a, false)->Ok_0.2 as int,
        ) + v,
        (a + v).skip(a.len() as int) == v,
{
    assert(a.len() > 0 && a[0] == ATTRIBUTE);
    assert((a + v)[0] == a[0]);
    assert(a.skip(0) =~= a);
    lemma_map_prefix(a, v, false);
    let m = map_form(a);
    assert(m[0] == MAP);
    assert(m.skip(0) =~= m);
    assert(m.skip(1) =~= a.skip(1));
    let h = de_map_spec(a, false)->Ok_0.2;
    assert((a + v).skip(h as int) =~= m.skip(h as int) + v);
    assert((a + v).skip(a.len() as int) =~= v);
}

/// Aggregate cardinality when decoding typed children: once the input is
/// used up, every further read of a child runs out of input.
pub proof fn lemma_nothing_left(skip: bool)
    ensures
        peek_spec(Seq::<u8>::empty(), skip) == Err::<nat, Error>(Error::EOF),
        de_bool_spec(Seq::<u8>::empty(), skip) == Err::<(bool, nat), Error>(Error::EOF),
        de_i64_spec(Seq::<u8>::empty(), skip) == Err::<(int, nat), Error>(Error::EOF),
        de_u64_spec(Seq::<u8>::empty(), skip) == Err::<(nat, nat), Error>(Error::EOF),
        de_f64_spec(Seq::<u8>::empty(), skip) is Err,
        text_spec(Seq::<u8>::empty(), skip) == Err::<(Seq<u8>, nat), Error>(Error::EOF),
        str_spec(Seq::<u8>::empty(), skip) == Err::<(Seq<char>, nat), Error>(Error::EOF),
        forall|kind: StringKind|
            tagged_spec(Seq::<u8>::empty(), skip, kind) == Err::<(Seq<char>, nat), Error>(
                Error::EOF,
            ),
        de_option_spec(Seq::<u8>::empty(), skip) == Err::<(bool, nat), Error>(Error::EOF),
        de_unit_spec(Seq::<u8>::empty(), skip) == Err::<nat, Error>(Error::EOF),
        de_seq_spec(Seq::<u8>::empty(), skip) == Err::<(nat, nat), Error>(Error::EOF),
        de_map_spec(Seq::<u8>::empty(), skip) is Err,
        de_any_spec(Seq::<u8>::empty(), skip) is Err,
        skip_any_spec(Seq::<u8>::empty()) == Err::<nat, Error>(Error::EOF),
{
}

/// Aggregate cardinality when decoding: children are read by the declared
/// count. Where the input holds fewer whole values than declared, reading
/// runs out of input; values after the declared count are left unread.
pub proof fn lemma_declared_count(s: Seq<u8>, k: nat, n: nat, extra: Seq<u8>)
    requires
        skip_values_spec(s, k) == Ok::<nat, Error>(s.len()),
    ensures
        n > k ==> skip_values_spec(s, n) == Err::<nat, Error>(Error::EOF),
        skip_values_spec(s + extra, k) == Ok::<nat, Error>(s.len()),
    decreases k,
{
    lemma_values_prefix(s, extra, k);
    if n > k {
        if k == 0 {
            assert(s.len() == 0);
            assert(peek_spec(s, true) == Err::<nat, Error>(Error::EOF));
        } else {
            let j = skip_any_spec(s)->Ok_0;
            assert(s.skip(j as int).len() == s.len() - j);
            lemma_declared_count(s.skip(j as int), (k - 1) as nat, (n - 1) as nat, extra);
        }
    }
}

proof fn lemma_attribute_peek(a: Seq<u8>, v: Seq<u8>)
    requires
        attribute_skip_spec(a + v) == Ok::<nat, Error>(a.len()),
        attribute_skip_spec(a) == Ok::<nat, Error>(a.len()),
    ensures
        peek_spec(a + v, true) == shifted(peek_spec(v, true), a.len()),
        (a + v).skip(a.len() as int) == v,
        peek_spec(v, true) is Ok ==> peek_spec(v, true)->Ok_0 < v.len() && (a + v).skip(
            (a.len() + peek_spec(v, true)->Ok_0) as int,
        ) == v.skip(peek_spec(v, true)->Ok_0 as int) && (a + v)[(a.len() + peek_spec(v, true)->Ok_0) as int]
            == v[peek_spec(v, true)->Ok_0 as int],
{
    let s = a + v;
    assert(a.len() > 0 && a[0] == ATTRIBUTE);
    assert(s[0] == ATTRIBUTE);
    assert(s.skip(a.len() as int) =~= v);
    if peek_spec(v, true) is Ok {
        lemma_peek_prefix(v, Seq::<u8>::empty(), true);
        let p = peek_spec(v, true)->Ok_0;
        assert(s.skip((a.len() + p) as int) =~= v.skip(p as int));
    }
}

/// What the reads below need: the attributes of `a` followed by `v` end
/// where those of `v` end, `a.len()` bytes later.
pub open spec fn peeks_alike(a: Seq<u8>, v: Seq<u8>) -> bool {
    &&& peek_spec(v, true) is Ok
    &&& peek_spec(a + v, true) == shifted(peek_spec(v, true), a.len())
    &&& peek_spec(v, true)->Ok_0 < v.len()
    &&& (a + v).skip((a.len() + peek_spec(v, true)->Ok_0) as int) == v.skip(peek_spec(v, true)->Ok_0 as int)
    &&& (a + v)[(a.len() + peek_spec(v, true)->Ok_0) as int] == v[peek_spec(v, true)->Ok_0 as int]
}

proof fn lemma_transparent_scalars(a: Seq<u8>, v: Seq<u8>)
    requires
        peeks_alike(a, v),
    ensures
        de_bool_spec(a + v, true) == shifted_read(de_bool_spec(v, true), a.len()),
        de_i64_spec(a + v, true) == shifted_read(de_i64_spec(v, true), a.len()),
        de_u64_spec(a + v, true) == shifted_read(de_u64_spec(v, true), a.len()),
        de_f64_spec(a + v, true) == shifted_read(de_f64_spec(v, true), a.len()),
{
}

proof fn lemma_transparent_text(a: Seq<u8>, v: Seq<u8>)
    requires
        peeks_alike(a, v),
    ensures
        text_spec(a + v, true) == shifted_read(text_spec(v, true), a.len()),
        str_spec(a + v, true) == shifted_read(str_spec(v, true), a.len()),
{
}

proof fn lemma_transparent_tagged(a: Seq<u8>, v: Seq<u8>, kind: StringKind)
    requires
        peeks_alike(a, v),
    ensures
        tagged_spec(a + v, true, kind) == shifted_read(tagged_spec(v, true, kind), a.len()),
{
}

proof fn lemma_transparent_headers(a: Seq<u8>, v: Seq<u8>)
    requires
        peeks_alike(a, v),
    ensures
        de_option_spec(a + v, true) == shifted_read(de_option_spec(v, true), a.len()),
        de_unit_spec(a + v, true) == shifted(de_unit_spec(v, true), a.len()),
        de_seq_spec(a + v, true) == shifted_read(de_seq_spec(v, true), a.len()),
        de_any_spec(a + v, true) == shifted_read(de_any_spec(v, true), a.len()),
        de_map_spec(a + v, true) == match de_map_spec(v, true) {
            Ok((c, f, n)) => Ok((c, f, a.len() + n)),
            Err(e) => Err(e),
        },
{
    lemma_transparent_null(a, v);
    lemma_transparent_aggregates(a, v);
}

proof fn lemma_transparent_null(a: Seq<u8>, v: Seq<u8>)
    requires
        peeks_alike(a, v),
    ensures
        de_option_spec(a + v, true) == shifted_read(de_option_spec(v, true), a.len()),
        de_unit_spec(a + v, true) == shifted(de_unit_spec(v, true), a.len()),
{
}

proof fn lemma_transparent_aggregates(a: Seq<u8>, v: Seq<u8>)
    requires
        peeks_alike(a, v),
    ensures
        de_seq_spec(a + v, true) == shifted_read(de_seq_spec(v, true), a.len()),
        de_any_spec(a + v, true) == shifted_read(de_any_spec(v, true), a.len()),
        de_map_spec(a + v, true) == match de_map_spec(v, true) {
            Ok((c, f, n)) => Ok((c, f, a.len() + n)),
            Err(e) => Err(e),
        },
{
}

proof fn lemma_transparent_skip(a: Seq<u8>, v: Seq<u8>)
    requires
        peeks_alike(a, v),
    ensures
        skip_any_spec(a + v) == shifted(skip_any_spec(v), a.len()),
{
}

} // verus!
