//! A successful read depends only on the bytes it consumes: appending bytes
//! after them changes nothing.
use vstd::prelude::*;

use crate::de::{
    attribute_skip_spec, category_of, de_bool_spec, de_f64_spec, de_i64_spec, de_map_spec,
    de_option_spec, de_seq_spec, de_u64_spec, de_unit_spec, peek_spec, scalar_skip_spec,
    signed_spec, skip_any_spec, skip_values_spec, str_spec, text_body_spec, text_spec,
    Category,
};
use crate::wire::{
    blob_spec, bool_spec, crlf, digit_run, double_line_spec, double_spec, ident_spec, inf_literal, is_digit,
    lemma_digit_run, lemma_digit_run_prefix, lemma_text_run, lemma_text_run_prefix, length_spec,
    simple_spec, text_run, unsigned_spec, ATTRIBUTE, CR, DIGIT_ZERO, INF_BYTE, MINUS,
};

verus! {

proof fn lemma_skip_append(s: Seq<u8>, t: Seq<u8>, k: int)
    requires
        0 <= k <= s.len(),
    ensures
        (s + t).skip(k) == s.skip(k) + t,
{
    assert((s + t).skip(k) =~= s.skip(k) + t);
}

pub proof fn lemma_ident_prefix(s: Seq<u8>, t: Seq<u8>, id: Seq<u8>)
    requires
        ident_spec(s, id) is Ok,
    ensures
        ident_spec(s + t, id) == ident_spec(s, id),
        id.len() <= s.len(),
{
    assert((s + t).take(id.len() as int) =~= s.take(id.len() as int));
}

pub proof fn lemma_unsigned_len(s: Seq<u8>, max: nat)
    requires
        unsigned_spec(s, max) is Ok,
    ensures
        unsigned_spec(s, max)->Ok_0.1 <= s.len(),
{
    lemma_digit_run(s);
}

/// An unsigned number followed, inside `s`, by a byte that is not a digit.
pub proof fn lemma_unsigned_prefix(s: Seq<u8>, t: Seq<u8>, max: nat)
    requires
        unsigned_spec(s, max) is Ok,
        unsigned_spec(s, max)->Ok_0.1 < s.len(),
        !is_digit(s[unsigned_spec(s, max)->Ok_0.1 as int]),
    ensures
        unsigned_spec(s + t, max) == unsigned_spec(s, max),
{
    lemma_digit_run(s);
    if s[0] != DIGIT_ZERO {
        lemma_digit_run_prefix(s, t);
        assert((s + t).take(digit_run(s) as int) =~= s.take(digit_run(s) as int));
    } else {
        assert((s + t)[1] == s[1]);
    }
}

pub proof fn lemma_length_prefix(s: Seq<u8>, t: Seq<u8>)
    requires
        length_spec(s) is Ok,
    ensures
        length_spec(s + t) == length_spec(s),
        length_spec(s)->Ok_0.1 <= s.len(),
{
    let n = unsigned_spec(s, usize::MAX as nat)->Ok_0.1;
    lemma_digit_run(s);
    lemma_ident_prefix(s.skip(n as int), t, crlf());
    assert(s.skip(n as int)[0] == CR);
    assert(s[n as int] == CR);
    lemma_unsigned_prefix(s, t, usize::MAX as nat);
    lemma_skip_append(s, t, n as int);
}

pub proof fn lemma_blob_prefix(s: Seq<u8>, t: Seq<u8>)
    requires
        blob_spec(s) is Ok,
    ensures
        blob_spec(s + t) == blob_spec(s),
        blob_spec(s)->Ok_0.1 <= s.len(),
{
    lemma_length_prefix(s, t);
    let (len, h) = length_spec(s)->Ok_0;
    lemma_skip_append(s, t, (h + len) as int);
    lemma_ident_prefix(s.skip((h + len) as int), t, crlf());
    assert((s + t).subrange(h as int, (h + len) as int) =~= s.subrange(h as int, (h + len) as int));
}

pub proof fn lemma_simple_prefix(s: Seq<u8>, t: Seq<u8>)
    requires
        simple_spec(s) is Ok,
    ensures
        simple_spec(s + t) == simple_spec(s),
        simple_spec(s)->Ok_0.1 <= s.len(),
{
    lemma_text_run(s);
    lemma_text_run_prefix(s, t);
    let k = text_run(s);
    lemma_skip_append(s, t, k as int);
    lemma_ident_prefix(s.skip(k as int), t, crlf());
    assert((s + t).take(k as int) =~= s.take(k as int));
}

pub proof fn lemma_bool_prefix(s: Seq<u8>, t: Seq<u8>)
    requires
        bool_spec(s) is Ok,
    ensures
        bool_spec(s + t) == bool_spec(s),
        bool_spec(s)->Ok_0.1 <= s.len(),
{
    lemma_skip_append(s, t, 1);
    lemma_ident_prefix(s.skip(1), t, crlf());
}

pub proof fn lemma_signed_prefix(s: Seq<u8>, t: Seq<u8>)
    requires
        signed_spec(s) is Ok,
    ensures
        signed_spec(s + t) == signed_spec(s),
        signed_spec(s)->Ok_0.1 <= s.len(),
{
    if s[0] == MINUS {
        let u = s.skip(1);
        let n = unsigned_spec(u, i64::MAX as nat)->Ok_0.1;
        lemma_unsigned_len(u, i64::MAX as nat);
        assert(s.skip((1 + n) as int) =~= u.skip(n as int));
        lemma_ident_prefix(u.skip(n as int), t, crlf());
        assert(u.skip(n as int)[0] == CR);
        lemma_skip_append(s, t, 1);
        lemma_skip_append(u, t, n as int);
        lemma_unsigned_prefix(u, t, i64::MAX as nat);
        assert((s + t).skip((1 + n) as int) =~= (u + t).skip(n as int));
    } else {
        let n = unsigned_spec(s, i64::MAX as nat)->Ok_0.1;
        lemma_unsigned_len(s, i64::MAX as nat);
        lemma_ident_prefix(s.skip(n as int), t, crlf());
        assert(s.skip(n as int)[0] == CR);
        lemma_skip_append(s, t, n as int);
        lemma_unsigned_prefix(s, t, i64::MAX as nat);
    }
}

pub proof fn lemma_double_prefix(s: Seq<u8>, t: Seq<u8>)
    requires
        double_line_spec(s) is Ok,
    ensures
        double_line_spec(s + t) == double_line_spec(s),
        double_line_spec(s)->Ok_0.2 <= s.len(),
{
    let neg = s.len() > 0 && s[0] == MINUS;
    let o: int = if neg { 1 } else { 0 };
    let u = s.skip(o);
    lemma_skip_append(s, t, o);
    assert((s + t).len() > 0 && (s + t)[0] == MINUS <==> neg);
    if u.len() > 0 && u[0] == INF_BYTE {
        lemma_ident_prefix(u, t, inf_literal());
    } else {
        lemma_text_run(u);
        lemma_text_run_prefix(u, t);
        let k = text_run(u);
        assert((u + t).take(k as int) =~= u.take(k as int));
    }
    assert(double_spec(s + t) == double_spec(s));
    let n = double_spec(s)->Ok_0.2;
    assert(n <= s.len());
    lemma_skip_append(s, t, n as int);
    lemma_ident_prefix(s.skip(n as int), t, crlf());
}

pub proof fn lemma_text_body_prefix(s: Seq<u8>, t: Seq<u8>)
    requires
        s.len() > 0,
        text_body_spec(s) is Ok,
    ensures
        text_body_spec(s + t) == text_body_spec(s),
        text_body_spec(s)->Ok_0.1 <= s.len(),
{
    lemma_skip_append(s, t, 1);
    if s[0] == crate::wire::SIMPLE_STRING || s[0] == crate::wire::SIMPLE_ERROR {
        lemma_simple_prefix(s.skip(1), t);
    } else {
        lemma_blob_prefix(s.skip(1), t);
    }
}

pub proof fn lemma_scalar_prefix(s: Seq<u8>, t: Seq<u8>)
    requires
        s.len() > 0,
        scalar_skip_spec(s) is Ok,
    ensures
        scalar_skip_spec(s + t) == scalar_skip_spec(s),
        scalar_skip_spec(s)->Ok_0 <= s.len(),
{
    reveal(scalar_skip_spec);
    lemma_skip_append(s, t, 1);
    if crate::de::is_text_marker(s[0]) {
        lemma_text_body_prefix(s, t);
    } else if s[0] == crate::wire::BOOLEAN {
        lemma_bool_prefix(s.skip(1), t);
    } else if s[0] == crate::wire::NUMBER {
        lemma_signed_prefix(s.skip(1), t);
    } else {
        lemma_double_prefix(s.skip(1), t);
    }
}

pub proof fn lemma_peek_prefix(s: Seq<u8>, t: Seq<u8>, skip: bool)
    requires
        peek_spec(s, skip) is Ok,
    ensures
        peek_spec(s + t, skip) == peek_spec(s, skip),
        peek_spec(s, skip)->Ok_0 < s.len(),
    decreases s.len(), 1int,
{
    assert((s + t)[0] == s[0]);
    if s[0] == ATTRIBUTE && skip {
        lemma_attribute_prefix(s, t);
        let a = attribute_skip_spec(s)->Ok_0;
        lemma_skip_append(s, t, a as int);
        lemma_peek_prefix(s.skip(a as int), t, skip);
    }
}

pub proof fn lemma_attribute_prefix(s: Seq<u8>, t: Seq<u8>)
    requires
        attribute_skip_spec(s) is Ok,
    ensures
        attribute_skip_spec(s + t) == attribute_skip_spec(s),
        attribute_skip_spec(s)->Ok_0 <= s.len(),
    decreases s.len(), 0int,
{
    assert((s + t)[0] == s[0]);
    let u = s.skip(1);
    lemma_skip_append(s, t, 1);
    lemma_length_prefix(u, t);
    let (c, h) = length_spec(u)->Ok_0;
    lemma_skip_append(s, t, (1 + h) as int);
    lemma_values_prefix(s.skip((1 + h) as int), t, 2 * c);
}

pub proof fn lemma_values_prefix(s: Seq<u8>, t: Seq<u8>, n: nat)
    requires
        skip_values_spec(s, n) is Ok,
    ensures
        skip_values_spec(s + t, n) == skip_values_spec(s, n),
        skip_values_spec(s, n)->Ok_0 <= s.len(),
    decreases s.len(), n + 5,
{
    if n > 0 {
        lemma_any_prefix(s, t);
        let k = skip_any_spec(s)->Ok_0;
        lemma_skip_append(s, t, k as int);
        lemma_values_prefix(s.skip(k as int), t, (n - 1) as nat);
    }
}

pub proof fn lemma_any_prefix(s: Seq<u8>, t: Seq<u8>)
    requires
        skip_any_spec(s) is Ok,
    ensures
        skip_any_spec(s + t) == skip_any_spec(s),
        skip_any_spec(s)->Ok_0 <= s.len(),
    decreases s.len(), 4int,
{
    lemma_peek_prefix(s, t, true);
    let a = peek_spec(s, true)->Ok_0;
    lemma_skip_append(s, t, a as int);
    let u = s.skip(a as int);
    assert((u + t)[0] == u[0]);
    match category_of(u[0]) {
        Some(Category::Sequence) => {
            lemma_skip_append(u, t, 1);
            lemma_length_prefix(u.skip(1), t);
            let (c, h) = length_spec(u.skip(1))->Ok_0;
            lemma_skip_append(u, t, (1 + h) as int);
            lemma_values_prefix(u.skip((1 + h) as int), t, c);
        },
        Some(Category::Mapping) => {
            lemma_map_prefix(u, t, true);
            let (c, _, h) = de_map_spec(u, true)->Ok_0;
            lemma_skip_append(u, t, h as int);
            lemma_values_prefix(u.skip(h as int), t, 2 * c);
        },
        Some(_) => {
            lemma_scalar_prefix(u, t);
        },
        None => {},
    }
}

pub proof fn lemma_map_prefix(s: Seq<u8>, t: Seq<u8>, skip: bool)
    requires
        de_map_spec(s, skip) is Ok,
    ensures
        de_map_spec(s + t, skip) == de_map_spec(s, skip),
        de_map_spec(s, skip)->Ok_0.2 <= s.len(),
    decreases s.len(), 2int,
{
    lemma_peek_prefix(s, t, skip);
    let a = peek_spec(s, skip)->Ok_0;
    lemma_skip_append(s, t, a as int);
    let u = s.skip(a as int);
    assert((u + t)[0] == u[0]);
    lemma_skip_append(u, t, 1);
    lemma_length_prefix(u.skip(1), t);
}

/// Looking past the attributes: the rest after them, with `t` appended.
proof fn lemma_after_peek(s: Seq<u8>, t: Seq<u8>, skip: bool)
    requires
        peek_spec(s, skip) is Ok,
    ensures
        peek_spec(s + t, skip) == peek_spec(s, skip),
        peek_spec(s, skip)->Ok_0 < s.len(),
        (s + t).skip(peek_spec(s, skip)->Ok_0 as int) == s.skip(peek_spec(s, skip)->Ok_0 as int) + t,
        (s + t).skip(peek_spec(s, skip)->Ok_0 as int).skip(1) == s.skip(peek_spec(s, skip)->Ok_0 as int).skip(1) + t,
        (s + t)[peek_spec(s, skip)->Ok_0 as int] == s[peek_spec(s, skip)->Ok_0 as int],
{
    lemma_peek_prefix(s, t, skip);
    let a = peek_spec(s, skip)->Ok_0;
    lemma_skip_append(s, t, a as int);
    lemma_skip_append(s.skip(a as int), t, 1);
}

pub proof fn lemma_de_bool_prefix(s: Seq<u8>, t: Seq<u8>, skip: bool)
    requires
        de_bool_spec(s, skip) is Ok,
    ensures
        de_bool_spec(s + t, skip) == de_bool_spec(s, skip),
{
    lemma_after_peek(s, t, skip);
    lemma_bool_prefix(s.skip(peek_spec(s, skip)->Ok_0 as int).skip(1), t);
}

pub proof fn lemma_de_i64_prefix(s: Seq<u8>, t: Seq<u8>, skip: bool)
    requires
        de_i64_spec(s, skip) is Ok,
    ensures
        de_i64_spec(s + t, skip) == de_i64_spec(s, skip),
{
    lemma_after_peek(s, t, skip);
    lemma_signed_prefix(s.skip(peek_spec(s, skip)->Ok_0 as int).skip(1), t);
}

pub proof fn lemma_de_u64_prefix(s: Seq<u8>, t: Seq<u8>, skip: bool)
    requires
        de_u64_spec(s, skip) is Ok,
    ensures
        de_u64_spec(s + t, skip) == de_u64_spec(s, skip),
{
    lemma_after_peek(s, t, skip);
    let u = s.skip(peek_spec(s, skip)->Ok_0 as int).skip(1);
    let n = unsigned_spec(u, u64::MAX as nat)->Ok_0.1;
    assert((u + t)[0] == u[0]);
    lemma_unsigned_len(u, u64::MAX as nat);
    lemma_ident_prefix(u.skip(n as int), t, crlf());
    assert(u.skip(n as int)[0] == CR);
    lemma_skip_append(u, t, n as int);
    lemma_unsigned_prefix(u, t, u64::MAX as nat);
}

pub proof fn lemma_de_f64_prefix(s: Seq<u8>, t: Seq<u8>, skip: bool)
    requires
        de_f64_spec(s, skip) is Ok,
    ensures
        de_f64_spec(s + t, skip) == de_f64_spec(s, skip),
{
    lemma_after_peek(s, t, skip);
    let u = s.skip(peek_spec(s, skip)->Ok_0 as int).skip(1);
    if s[peek_spec(s, skip)->Ok_0 as int] == crate::wire::NUMBER {
        lemma_signed_prefix(u, t);
    } else {
        lemma_double_prefix(u, t);
    }
}

pub proof fn lemma_text_prefix(s: Seq<u8>, t: Seq<u8>, skip: bool)
    requires
        text_spec(s, skip) is Ok,
    ensures
        text_spec(s + t, skip) == text_spec(s, skip),
        str_spec(s + t, skip) == str_spec(s, skip),
{
    lemma_after_peek(s, t, skip);
    let m = s[peek_spec(s, skip)->Ok_0 as int];
    let u = s.skip(peek_spec(s, skip)->Ok_0 as int).skip(1);
    if m == crate::wire::SIMPLE_STRING || m == crate::wire::SIMPLE_ERROR {
        lemma_simple_prefix(u, t);
    } else {
        lemma_blob_prefix(u, t);
    }
}

pub proof fn lemma_headers_prefix(s: Seq<u8>, t: Seq<u8>, skip: bool)
    requires
        peek_spec(s, skip) is Ok,
    ensures
        de_seq_spec(s, skip) is Ok ==> de_seq_spec(s + t, skip) == de_seq_spec(s, skip),
        de_option_spec(s, skip) is Ok ==> de_option_spec(s + t, skip) == de_option_spec(s, skip),
        de_unit_spec(s, skip) is Ok ==> de_unit_spec(s + t, skip) == de_unit_spec(s, skip),
{
    lemma_after_peek(s, t, skip);
    let u = s.skip(peek_spec(s, skip)->Ok_0 as int).skip(1);
    if de_seq_spec(s, skip) is Ok {
        lemma_length_prefix(u, t);
    }
    if de_option_spec(s, skip) is Ok && s[peek_spec(s, skip)->Ok_0 as int] == crate::wire::NULL {
        lemma_ident_prefix(u, t, crlf());
    }
    if de_unit_spec(s, skip) is Ok {
        lemma_ident_prefix(u, t, crlf());
    }
}

} // verus!
