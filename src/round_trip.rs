use vstd::prelude::*;
use crate::resp::{
    all_digits,
    byte_len,
    char_width,
    crlf,
    decode_spec,
    digit_char,
    digits_value,
    encoding,
    encoding_all,
    int_of_text,
    int_text,
    is_digit,
    line_end,
    nat_digits,
    parse_at,
    parse_items,
    take_end,
    RespValue,
};

verus! {

/// True when `x` stands in `s` from position `pos` on.
pub open spec fn occurs_at(s: Seq<char>, pos: int, x: Seq<char>) -> bool {
    0 <= pos && pos + x.len() <= s.len() && forall|k: int| 0 <= k < x.len() ==> s[pos + k] == #[trigger] x[k]
}

/// True when the text of every simple string and error in `v` is free of line breaks, as
/// the framing of those kinds requires.
pub open spec fn wire_safe(v: RespValue) -> bool
    decreases v,
{
    match v {
        RespValue::SimpleString(t) => no_line_break(t),
        RespValue::Error(t) => no_line_break(t),
        RespValue::Array(a) => all_wire_safe(a),
        _ => true,
    }
}

pub open spec fn all_wire_safe(a: Seq<RespValue>) -> bool
    decreases a,
{
    if a.len() == 0 {
        true
    } else {
        wire_safe(a[0]) && all_wire_safe(a.drop_first())
    }
}

pub open spec fn no_line_break(t: Seq<char>) -> bool {
    forall|i: int| 0 <= i < t.len() ==> #[trigger] t[i] != '\r' && t[i] != '\n'
}

proof fn lemma_occurs_split(s: Seq<char>, pos: int, x: Seq<char>, y: Seq<char>)
    requires
        occurs_at(s, pos, x + y),
    ensures
        occurs_at(s, pos, x),
        occurs_at(s, pos + x.len(), y),
        s.subrange(pos, pos + x.len()) == x,
{
    assert forall|k: int| 0 <= k < x.len() implies s[pos + k] == #[trigger] x[k] by {
        assert((x + y)[k] == x[k]);
    }
    assert forall|k: int| 0 <= k < y.len() implies s[pos + x.len() + k] == #[trigger] y[k] by {
        assert((x + y)[x.len() + k] == y[k]);
    }
    assert(s.subrange(pos, pos + x.len()) =~= x);
}

proof fn lemma_line_end(s: Seq<char>, pos: int, t: Seq<char>)
    requires
        occurs_at(s, pos, t + crlf()),
        forall|i: int| 0 <= i < t.len() ==> #[trigger] t[i] != '\r',
    ensures
        line_end(s, pos) == Some(pos + t.len()),
    decreases t.len(),
{
    lemma_occurs_split(s, pos, t, crlf());
    if t.len() == 0 {
        assert(s[pos] == crlf()[0]);
        assert(s[pos + 1] == crlf()[1]);
    } else {
        assert(s[pos] == t[0]);
        let r = t.drop_first();
        assert forall|k: int| 0 <= k < (r + crlf()).len() implies s[pos + 1 + k] == #[trigger] (r
            + crlf())[k] by {
            assert((t + crlf())[k + 1] == (r + crlf())[k]);
        }
        assert forall|i: int| 0 <= i < r.len() implies #[trigger] r[i] != '\r' by {
            assert(r[i] == t[i + 1]);
        }
        lemma_line_end(s, pos + 1, r);
    }
}

pub proof fn lemma_nat_digits(n: nat)
    ensures
        nat_digits(n).len() >= 1,
        all_digits(nat_digits(n)),
        digits_value(nat_digits(n)) == n,
    decreases n,
{
    if n >= 10 {
        lemma_nat_digits(n / 10);
        let d = nat_digits(n);
        assert(d.drop_last() =~= nat_digits(n / 10));
        assert(d.last() == digit_char(n % 10));
        assert forall|i: int| 0 <= i < d.len() implies #[trigger] is_digit(d[i]) by {
            if i < d.len() - 1 {
                assert(d[i] == nat_digits(n / 10)[i]);
            }
        }
    } else {
        let d = nat_digits(n);
        assert(d.drop_last() =~= Seq::<char>::empty());
        assert(digits_value(d.drop_last()) == 0);
    }
}

proof fn lemma_int_text(i: int)
    ensures
        int_of_text(int_text(i)) == Some(i),
        forall|k: int| 0 <= k < int_text(i).len() ==> #[trigger] int_text(i)[k] != '\r',
{
    if i < 0 {
        let d = nat_digits((-i) as nat);
        lemma_nat_digits((-i) as nat);
        assert((seq!['-'] + d).drop_first() =~= d);
        assert forall|k: int| 0 <= k < int_text(i).len() implies #[trigger] int_text(i)[k]
            != '\r' by {
            if k > 0 {
                assert(int_text(i)[k] == d[k - 1]);
                assert(is_digit(d[k - 1]));
            }
        }
    } else {
        let d = nat_digits(i as nat);
        lemma_nat_digits(i as nat);
        assert(is_digit(d[0]));
        assert forall|k: int| 0 <= k < d.len() implies #[trigger] d[k] != '\r' by {
            assert(is_digit(d[k]));
        }
    }
}

proof fn lemma_digit_line(n: nat)
    ensures
        forall|k: int| 0 <= k < nat_digits(n).len() ==> #[trigger] nat_digits(n)[k] != '\r',
        nat_digits(n) != seq!['-', '1'],
{
    lemma_nat_digits(n);
    assert forall|k: int| 0 <= k < nat_digits(n).len() implies #[trigger] nat_digits(n)[k]
        != '\r' by {
        assert(is_digit(nat_digits(n)[k]));
    }
    assert(is_digit(nat_digits(n)[0]));
    if nat_digits(n) == seq!['-', '1'] {
        assert(nat_digits(n)[0] == '-');
    }
}

proof fn lemma_byte_len_step(p: Seq<char>)
    requires
        p.len() > 0,
    ensures
        byte_len(p) == char_width(p[0]) + byte_len(p.drop_first()),
        char_width(p[0]) >= 1,
{
}

/// A payload is taken back by the number of bytes it encodes to.
proof fn lemma_take_end_payload(s: Seq<char>, pos: int, p: Seq<char>)
    requires
        occurs_at(s, pos, p),
    ensures
        take_end(s, pos, byte_len(p) as int) == Some(pos + p.len()),
    decreases p.len(),
{
    if p.len() > 0 {
        lemma_byte_len_step(p);
        assert(s[pos] == p[0]);
        let r = p.drop_first();
        assert forall|k: int| 0 <= k < r.len() implies s[pos + 1 + k] == #[trigger] r[k] by {
            assert(p[k + 1] == r[k]);
        }
        lemma_take_end_payload(s, pos + 1, r);
    }
}

/// Decoding a bulk string takes exactly as many bytes as its length prefix declares.
pub proof fn lemma_take_end_bytes(s: Seq<char>, pos: int, n: int)
    requires
        0 <= pos <= s.len(),
        take_end(s, pos, n) is Some,
    ensures
        ({
            let q = take_end(s, pos, n)->Some_0;
            &&& pos <= q <= s.len()
            &&& byte_len(s.subrange(pos, q)) == n
        }),
    decreases s.len() - pos,
{
    if n != 0 {
        lemma_take_end_bytes(s, pos + 1, n - char_width(s[pos]));
        let q = take_end(s, pos, n)->Some_0;
        let p = s.subrange(pos, q);
        assert(p.drop_first() =~= s.subrange(pos + 1, q));
        if pos + 1 == q {
            assert(byte_len(s.subrange(pos + 1, q)) == 0);
        }
        lemma_byte_len_step(p);
    } else {
        assert(s.subrange(pos, pos) =~= Seq::<char>::empty());
    }
}

proof fn lemma_encoding_nonempty(v: RespValue)
    ensures
        encoding(v).len() >= 2,
        encoding(v)[encoding(v).len() - 2] == '\r',
        encoding(v)[encoding(v).len() - 1] == '\n',
    decreases v,
{
    if let RespValue::Array(a) = v {
        lemma_encoding_all_ends(a);
        let h = seq!['*'] + nat_digits(a.len()) + crlf();
        if a.len() > 0 {
            let e = encoding_all(a);
            assert(encoding(v) == h + e);
            assert(encoding(v)[encoding(v).len() - 1] == e[e.len() - 1]);
            assert(encoding(v)[encoding(v).len() - 2] == e[e.len() - 2]);
        } else {
            assert(encoding(v) =~= h);
        }
    }
}

proof fn lemma_encoding_all_ends(a: Seq<RespValue>)
    ensures
        a.len() > 0 ==> {
            let e = encoding_all(a);
            &&& e.len() >= 2
            &&& e[e.len() - 2] == '\r'
            &&& e[e.len() - 1] == '\n'
        },
    decreases a,
{
    if a.len() > 0 {
        lemma_encoding_nonempty(a[0]);
        lemma_encoding_all_ends(a.drop_first());
        let x = encoding(a[0]);
        let y = encoding_all(a.drop_first());
        if a.drop_first().len() == 0 {
            assert(y =~= Seq::<char>::empty());
            assert(encoding_all(a) =~= x);
        } else {
            let e = encoding_all(a);
            assert(e[e.len() - 1] == y[y.len() - 1]);
            assert(e[e.len() - 2] == y[y.len() - 2]);
        }
    }
}

/// A value is read back from wherever its encoding stands.
pub proof fn lemma_parse_encoding(s: Seq<char>, pos: int, v: RespValue)
    requires
        wire_safe(v),
        occurs_at(s, pos, encoding(v)),
    ensures
        parse_at(s, pos) == Some((v, pos + encoding(v).len())),
    decreases v,
{
    lemma_encoding_nonempty(v);
    assert(s[pos + 0] == encoding(v)[0]);
    match v {
        RespValue::SimpleString(t) => {
            assert(encoding(v)[0] == '+');
            assert(encoding(v) == seq!['+'] + (t + crlf()));
            lemma_occurs_split(s, pos, seq!['+'], t + crlf());
            lemma_line_end(s, pos + 1, t);
            lemma_occurs_split(s, pos + 1, t, crlf());
        },
        RespValue::Error(t) => {
            assert(encoding(v)[0] == '-');
            assert(encoding(v) == seq!['-'] + (t + crlf()));
            lemma_occurs_split(s, pos, seq!['-'], t + crlf());
            lemma_line_end(s, pos + 1, t);
            lemma_occurs_split(s, pos + 1, t, crlf());
        },
        RespValue::Integer(i) => {
            assert(encoding(v)[0] == ':');
            let t = int_text(i as int);
            lemma_int_text(i as int);
            assert(encoding(v) == seq![':'] + (t + crlf()));
            lemma_occurs_split(s, pos, seq![':'], t + crlf());
            lemma_line_end(s, pos + 1, t);
            lemma_occurs_split(s, pos + 1, t, crlf());
        },
        RespValue::BulkString(None) => {
            assert(encoding(v)[0] == '$');
            let t = seq!['-', '1'];
            assert(encoding(v) == seq!['$'] + (t + crlf()));
            lemma_occurs_split(s, pos, seq!['$'], t + crlf());
            lemma_line_end(s, pos + 1, t);
            lemma_occurs_split(s, pos + 1, t, crlf());
        },
        RespValue::BulkString(Some(p)) => {
            assert(encoding(v)[0] == '$');
            let t = nat_digits(byte_len(p));
            lemma_digit_line(byte_len(p));
            lemma_nat_digits(byte_len(p));
            let next = pos + 1 + t.len() + 2;
            assert(encoding(v) == seq!['$'] + (t + crlf()) + (p + crlf()));
            lemma_occurs_split(s, pos, seq!['$'] + (t + crlf()), p + crlf());
            lemma_occurs_split(s, pos, seq!['$'], t + crlf());
            lemma_line_end(s, pos + 1, t);
            lemma_occurs_split(s, pos + 1, t, crlf());
            lemma_occurs_split(s, next, p, crlf());
            lemma_take_end_payload(s, next, p);
            assert(s[next + p.len()] == crlf()[0]);
            assert(s[next + p.len() + 1] == crlf()[1]);
        },
        RespValue::Array(a) => {
            assert(encoding(v)[0] == '*');
            let t = nat_digits(a.len());
            lemma_digit_line(a.len());
            lemma_nat_digits(a.len());
            let next = pos + 1 + t.len() + 2;
            assert(encoding(v) == seq!['*'] + (t + crlf()) + encoding_all(a));
            lemma_occurs_split(s, pos, seq!['*'] + (t + crlf()), encoding_all(a));
            lemma_occurs_split(s, pos, seq!['*'], t + crlf());
            lemma_line_end(s, pos + 1, t);
            lemma_occurs_split(s, pos + 1, t, crlf());
            lemma_parse_items_encoding(s, next, a);
        },
    }
}

/// A sequence of values is read back from wherever their encodings stand in turn.
pub proof fn lemma_parse_items_encoding(s: Seq<char>, pos: int, a: Seq<RespValue>)
    requires
        all_wire_safe(a),
        occurs_at(s, pos, encoding_all(a)),
    ensures
        parse_items(s, pos, a.len() as int) == Some((a, pos + encoding_all(a).len())),
    decreases a,
{
    if a.len() > 0 {
        let x = encoding(a[0]);
        let y = encoding_all(a.drop_first());
        lemma_occurs_split(s, pos, x, y);
        lemma_parse_encoding(s, pos, a[0]);
        lemma_encoding_nonempty(a[0]);
        lemma_parse_items_encoding(s, pos + x.len(), a.drop_first());
        assert(seq![a[0]] + a.drop_first() =~= a);
    }
}

/// Decoding the encoding of a value gives the value back, for every value whose simple
/// strings and errors hold no line break; arrays included, at any depth.
pub proof fn lemma_round_trip(v: RespValue)
    requires
        wire_safe(v),
    ensures
        decode_spec(encoding(v)) == Some(v),
{
    let s = encoding(v);
    lemma_encoding_nonempty(v);
    assert(occurs_at(s, 0, s));
    lemma_parse_encoding(s, 0, v);
}

/// A decoded bulk string occupies exactly as many bytes as its length line declares.
pub proof fn lemma_bulk_payload_bytes(s: Seq<char>, pos: int)
    requires
        parse_at(s, pos) matches Some((RespValue::BulkString(Some(_)), _)),
    ensures
        ({
            let p = parse_at(s, pos)->Some_0.0->BulkString_0->Some_0;
            let j = line_end(s, pos + 1)->Some_0;
            byte_len(p) == digits_value(s.subrange(pos + 1, j))
        }),
{
    let j = line_end(s, pos + 1)->Some_0;
    lemma_line_end_bounds(s, pos + 1);
    lemma_take_end_bytes(s, j + 2, digits_value(s.subrange(pos + 1, j)));
}

proof fn lemma_line_end_bounds(s: Seq<char>, pos: int)
    ensures
        line_end(s, pos) matches Some(j) ==> pos <= j && j + 2 <= s.len(),
    decreases s.len() - pos,
{
    if 0 <= pos < s.len() && s[pos] != '\r' {
        lemma_line_end_bounds(s, pos + 1);
    }
}

/// A bulk string frame, whatever characters its payload holds (line breaks and multi-byte
/// characters included), decodes to that payload and ends exactly after the payload's
/// declared number of bytes and the closing line terminator.
pub proof fn lemma_bulk_string_frame(s: Seq<char>, pos: int, p: Seq<char>)
    requires
        occurs_at(s, pos, seq!['$'] + nat_digits(byte_len(p)) + crlf() + p + crlf()),
    ensures
        parse_at(s, pos) == Some(
            (
                RespValue::BulkString(Some(p)),
                pos + 1 + nat_digits(byte_len(p)).len() + 2 + p.len() + 2,
            ),
        ),
{
    lemma_parse_encoding(s, pos, RespValue::BulkString(Some(p)));
}

} // verus!
