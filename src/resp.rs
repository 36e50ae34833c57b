use vstd::prelude::*;
use vstd::std_specs::iter::IteratorSpec;
use vstd::string::StringExecFns;
use vstd::utf8::encode_scalar;
use vstd::utf8::encode_utf8;

verus! {

broadcast use vstd::string::axiom_spec_iter, vstd::string::next_postcondition;

/// A value as it travels on the wire.
#[derive(Debug, PartialEq)]
pub enum RESP {
    SimpleString(String),
    Error(String),
    Integer(i64),
    BulkString(Option<String>),
    Array(Vec<RESP>),
}

/// The mathematical model of a `RESP` value: strings become character sequences.
pub enum RespValue {
    SimpleString(Seq<char>),
    Error(Seq<char>),
    Integer(i64),
    BulkString(Option<Seq<char>>),
    Array(Seq<RespValue>),
}

pub open spec fn value_of(r: RESP) -> RespValue
    decreases r,
{
    match r {
        RESP::SimpleString(s) => RespValue::SimpleString(s@),
        RESP::Error(s) => RespValue::Error(s@),
        RESP::Integer(i) => RespValue::Integer(i),
        RESP::BulkString(None) => RespValue::BulkString(None),
        RESP::BulkString(Some(s)) => RespValue::BulkString(Some(s@)),
        RESP::Array(a) => RespValue::Array(values_of(a@)),
    }
}

pub open spec fn values_of(s: Seq<RESP>) -> Seq<RespValue>
    decreases s,
{
    if s.len() == 0 {
        seq![]
    } else {
        seq![value_of(s[0])] + values_of(s.drop_first())
    }
}

impl View for RESP {
    type V = RespValue;

    open spec fn view(&self) -> RespValue {
        value_of(*self)
    }
}

pub proof fn lemma_values_of_index(s: Seq<RESP>)
    ensures
        values_of(s).len() == s.len(),
        forall|i: int| 0 <= i < s.len() ==> #[trigger] values_of(s)[i] == value_of(s[i]),
    decreases s.len(),
{
    if s.len() > 0 {
        lemma_values_of_index(s.drop_first());
        assert forall|i: int| 0 <= i < s.len() implies #[trigger] values_of(s)[i] == value_of(
            s[i],
        ) by {
            if i > 0 {
                assert(s.drop_first()[i - 1] == s[i]);
            }
        }
    }
}

pub proof fn lemma_values_of_push(s: Seq<RESP>, r: RESP)
    ensures
        values_of(s.push(r)) == values_of(s).push(value_of(r)),
{
    lemma_values_of_index(s);
    lemma_values_of_index(s.push(r));
    assert(values_of(s.push(r)) =~= values_of(s).push(value_of(r)));
}

/// The error returned when a frame cannot be decoded.
#[derive(Debug)]
pub enum RESPParseError {
    InvalidEncoding(String),
}

// ---------------------------------------------------------------- text model

pub open spec fn crlf() -> Seq<char> {
    seq!['\r', '\n']
}

pub open spec fn is_digit(c: char) -> bool {
    '0' <= c <= '9'
}

pub open spec fn digit_value(c: char) -> int {
    c as int - '0' as int
}

pub open spec fn digit_char(d: nat) -> char {
    ((d + 48) as u8) as char
}

/// The decimal digits of a natural number, most significant first.
pub open spec fn nat_digits(n: nat) -> Seq<char>
    decreases n,
{
    if n < 10 {
        seq![digit_char(n)]
    } else {
        nat_digits(n / 10).push(digit_char(n % 10))
    }
}

/// The decimal text of an integer, with a leading `-` when it is negative.
pub open spec fn int_text(i: int) -> Seq<char> {
    if i < 0 {
        seq!['-'] + nat_digits((-i) as nat)
    } else {
        nat_digits(i as nat)
    }
}

/// The number of bytes that the UTF-8 encoding of `s` occupies.
pub open spec fn byte_len(s: Seq<char>) -> nat {
    encode_utf8(s).len()
}

pub open spec fn char_width(c: char) -> nat {
    encode_scalar(c as u32).len()
}

/// The wire encoding of a value.
pub open spec fn encoding(v: RespValue) -> Seq<char>
    decreases v,
{
    match v {
        RespValue::SimpleString(s) => seq!['+'] + s + crlf(),
        RespValue::Error(s) => seq!['-'] + s + crlf(),
        RespValue::Integer(i) => seq![':'] + int_text(i as int) + crlf(),
        RespValue::BulkString(None) => seq!['$', '-', '1'] + crlf(),
        RespValue::BulkString(Some(s)) => seq!['$'] + nat_digits(byte_len(s)) + crlf() + s + crlf(),
        RespValue::Array(a) => seq!['*'] + nat_digits(a.len()) + crlf() + encoding_all(a),
    }
}

/// The encodings of a sequence of values, one after the other.
pub open spec fn encoding_all(a: Seq<RespValue>) -> Seq<char>
    decreases a,
{
    if a.len() == 0 {
        seq![]
    } else {
        encoding(a[0]) + encoding_all(a.drop_first())
    }
}

pub proof fn lemma_encoding_all_push(a: Seq<RespValue>, v: RespValue)
    ensures
        encoding_all(a.push(v)) == encoding_all(a) + encoding(v),
    decreases a.len(),
{
    if a.len() == 0 {
        assert(a.push(v).drop_first() =~= seq![]);
        assert(a.push(v)[0] == v);
        assert(encoding_all(a.push(v).drop_first()) == Seq::<char>::empty());
        assert(encoding_all(a.push(v)) =~= encoding(v));
    } else {
        assert(a.push(v).drop_first() =~= a.drop_first().push(v));
        assert(a.push(v)[0] == a[0]);
        lemma_encoding_all_push(a.drop_first(), v);
        assert(encoding_all(a.push(v)) =~= encoding_all(a) + encoding(v));
    }
}

// ---------------------------------------------------------------- helpers

/// Relies on String::push: appends one character.
#[verifier::external_body]
fn push_char(s: &mut String, c: char)
    ensures
        final(s)@ == old(s)@.push(c),
{
    s.push(c);
}

pub(crate) fn push_str(out: &mut String, s: &str)
    ensures
        final(out)@ == old(out)@ + s@,
{
    out.append(s);
}

fn push_crlf(out: &mut String)
    ensures
        final(out)@ == old(out)@ + crlf(),
{
    push_char(out, '\r');
    push_char(out, '\n');
    assert(final(out)@ =~= old(out)@ + crlf());
}

fn push_decimal(out: &mut String, n: u128)
    ensures
        final(out)@ == old(out)@ + nat_digits(n as nat),
    decreases n,
{
    if n >= 10 {
        push_decimal(out, n / 10);
    }
    let d: u8 = (n % 10) as u8;
    push_char(out, (d + 48u8) as char);
    assert(final(out)@ =~= old(out)@ + nat_digits(n as nat));
}

fn push_int(out: &mut String, i: i64)
    ensures
        final(out)@ == old(out)@ + int_text(i as int),
{
    if i < 0 {
        push_char(out, '-');
        push_decimal(out, (-(i as i128)) as u128);
        assert(final(out)@ =~= old(out)@ + int_text(i as int));
    } else {
        push_decimal(out, i as u128);
    }
}

/// The characters of `s`, in order.
pub fn chars_of(s: &str) -> (r: Vec<char>)
    ensures
        r@ == s@,
{
    let mut out: Vec<char> = Vec::new();
    let mut it = s.chars();
    assert(it.remaining() == s@);
    loop
        invariant
            out@ + it.remaining() == s@,
            it.decrease() is Some,
        ensures
            out@ == s@,
        decreases it.decrease()->0,
    {
        let ghost before = it.remaining();
        match it.next() {
            Some(c) => {
                out.push(c);
                assert(out@ + it.remaining() =~= s@);
            },
            None => {
                assert(before.len() == 0);
                assert(out@ =~= s@);
                break;
            },
        }
    }
    out
}

pub proof fn lemma_encode_utf8_push(s: Seq<char>, c: char)
    ensures
        encode_utf8(s.push(c)) == encode_utf8(s) + encode_scalar(c as u32),
    decreases s.len(),
{
    if s.len() == 0 {
        assert(s.push(c).drop_first() =~= seq![]);
        assert(s.push(c)[0] == c);
        assert(encode_utf8(s.push(c).drop_first()) =~= Seq::<u8>::empty());
        assert(encode_utf8(s) =~= Seq::<u8>::empty());
        assert(encode_utf8(s.push(c)) =~= encode_utf8(s) + encode_scalar(c as u32));
    } else {
        assert(s.push(c).drop_first() =~= s.drop_first().push(c));
        assert(s.push(c)[0] == s[0]);
        lemma_encode_utf8_push(s.drop_first(), c);
        assert(encode_utf8(s.push(c)) =~= encode_utf8(s) + encode_scalar(c as u32));
    }
}

/// The number of bytes in the UTF-8 encoding of `c`.
fn utf8_width(c: char) -> (w: u8)
    ensures
        w as nat == char_width(c),
        1 <= w <= 4,
{
    let u = c as u32;
    if u < 0x80 {
        1
    } else if u < 0x800 {
        2
    } else if u < 0x10000 {
        3
    } else {
        4
    }
}

/// The number of bytes that the UTF-8 encoding of `s` occupies.
pub fn utf8_len(s: &str) -> (n: u128)
    ensures
        n as nat == byte_len(s@),
{
    let cs = chars_of(s);
    let mut n: u128 = 0;
    let mut i: usize = 0;
    while i < cs.len()
        invariant
            cs@ == s@,
            i <= cs.len(),
            n as nat == byte_len(s@.subrange(0, i as int)),
            n <= 4 * i,
        decreases cs.len() - i,
    {
        let w = utf8_width(cs[i]);
        proof {
            assert(s@.subrange(0, i + 1) =~= s@.subrange(0, i as int).push(cs@[i as int]));
            lemma_encode_utf8_push(s@.subrange(0, i as int), cs@[i as int]);
        }
        n = n + w as u128;
        i = i + 1;
    }
    assert(s@.subrange(0, i as int) =~= s@);
    n
}

pub(crate) fn push_string(out: &mut String, s: &String)
    ensures
        final(out)@ == old(out)@ + s@,
{
    push_str(out, s.as_str());
}

impl RESP {
    fn encode_into(&self, out: &mut String)
        ensures
            final(out)@ == old(out)@ + encoding(self@),
        decreases self,
    {
        match self {
            RESP::SimpleString(s) => {
                push_char(out, '+');
                push_string(out, s);
                push_crlf(out);
            },
            RESP::Error(s) => {
                push_char(out, '-');
                push_string(out, s);
                push_crlf(out);
            },
            RESP::Integer(i) => {
                push_char(out, ':');
                push_int(out, *i);
                push_crlf(out);
            },
            RESP::BulkString(None) => {
                push_char(out, '$');
                push_char(out, '-');
                push_char(out, '1');
                push_crlf(out);
            },
            RESP::BulkString(Some(s)) => {
                push_char(out, '$');
                let n = utf8_len(s.as_str());
                push_decimal(out, n);
                push_crlf(out);
                push_string(out, s);
                push_crlf(out);
            },
            RESP::Array(a) => {
                push_char(out, '*');
                push_decimal(out, a.len() as u128);
                push_crlf(out);
                let ghost start = out@;
                let ghost vals = values_of(a@);
                proof {
                    lemma_values_of_index(a@);
                    assert(vals.subrange(0, 0) =~= seq![]);
                    assert(decreases_to!(*self => *a));
                }
                let mut i: usize = 0;
                while i < a.len()
                    invariant
                        i <= a.len(),
                        vals == values_of(a@),
                        decreases_to!(*self => *a),
                        vals.len() == a@.len(),
                        forall|j: int| 0 <= j < a@.len() ==> #[trigger] vals[j] == value_of(a@[j]),
                        out@ == start + encoding_all(vals.subrange(0, i as int)),
                    decreases a.len() - i,
                {
                    proof {
                        vstd::std_specs::vec::axiom_vec_index_decreases(*a, i as int);
                    }
                    a[i].encode_into(out);
                    proof {
                        assert(vals.subrange(0, i + 1) =~= vals.subrange(0, i as int).push(vals[i as int]));
                        lemma_encoding_all_push(vals.subrange(0, i as int), vals[i as int]);
                    }
                    i = i + 1;
                }
                assert(vals.subrange(0, i as int) =~= vals);
            },
        }
        proof {
            assert(final(out)@ =~= old(out)@ + encoding(self@));
        }
    }

    /// The wire encoding of this value.
    pub fn encode(&self) -> (r: String)
        ensures
            r@ == encoding(self@),
    {
        let mut out = String::new();
        self.encode_into(&mut out);
        assert(out@ =~= encoding(self@));
        out
    }
}

// ---------------------------------------------------------------- decoding model

/// Numbers larger than this are all treated alike by the decoder: no input is long enough
/// to hold that many bytes or values.
pub const DIGIT_CAP: u128 = 0x10000000000000000000000000;

pub open spec fn all_digits(d: Seq<char>) -> bool {
    forall|i: int| 0 <= i < d.len() ==> #[trigger] is_digit(d[i])
}

/// The value of a run of decimal digits (zero when it is empty).
pub open spec fn digits_value(d: Seq<char>) -> int
    decreases d.len(),
{
    if d.len() == 0 {
        0
    } else {
        digits_value(d.drop_last()) * 10 + digit_value(d.last())
    }
}

/// The integer written by `t`: an optional sign followed by at least one digit.
pub open spec fn int_of_text(t: Seq<char>) -> Option<int> {
    if t.len() > 0 && (t[0] == '-' || t[0] == '+') {
        let d = t.drop_first();
        if d.len() > 0 && all_digits(d) {
            Some(if t[0] == '-' { -digits_value(d) } else { digits_value(d) })
        } else {
            None
        }
    } else if t.len() > 0 && all_digits(t) {
        Some(digits_value(t))
    } else {
        None
    }
}

/// Where the line that starts at `pos` ends: the index of the first carriage return at or
/// after `pos`, provided a line feed follows it.
pub open spec fn line_end(s: Seq<char>, pos: int) -> Option<int>
    decreases s.len() - pos,
{
    if pos < 0 || pos >= s.len() {
        None
    } else if s[pos] == '\r' {
        if pos + 1 < s.len() && s[pos + 1] == '\n' {
            Some(pos)
        } else {
            None
        }
    } else {
        line_end(s, pos + 1)
    }
}

/// Where a payload of `n` bytes that starts at `pos` ends; `None` when the input runs out
/// first or a character straddles the boundary.
pub open spec fn take_end(s: Seq<char>, pos: int, n: int) -> Option<int>
    decreases s.len() - pos,
{
    if n == 0 {
        Some(pos)
    } else if n < 0 || pos < 0 || pos >= s.len() {
        None
    } else {
        take_end(s, pos + 1, n - char_width(s[pos]))
    }
}

/// The value whose frame starts at `pos`, and the position just after that frame.
pub open spec fn parse_at(s: Seq<char>, pos: int) -> Option<(RespValue, int)>
    decreases s.len() - pos, 0int,
{
    if 0 <= pos < s.len() {
        match line_end(s, pos + 1) {
            None => None,
            Some(j) => {
                let tag = s[pos];
                let line = s.subrange(pos + 1, j);
                let next = j + 2;
                if tag == '+' {
                    Some((RespValue::SimpleString(line), next))
                } else if tag == '-' {
                    Some((RespValue::Error(line), next))
                } else if tag == ':' {
                    match int_of_text(line) {
                        Some(i) => if i64::MIN <= i <= i64::MAX {
                            Some((RespValue::Integer(i as i64), next))
                        } else {
                            None
                        },
                        None => None,
                    }
                } else if tag == '$' {
                    if line == seq!['-', '1'] {
                        Some((RespValue::BulkString(None), next))
                    } else if all_digits(line) {
                        match take_end(s, next, digits_value(line)) {
                            Some(q) => if q + 1 < s.len() && s[q] == '\r' && s[q + 1] == '\n' {
                                Some((RespValue::BulkString(Some(s.subrange(next, q))), q + 2))
                            } else {
                                None
                            },
                            None => None,
                        }
                    } else {
                        None
                    }
                } else if tag == '*' {
                    if all_digits(line) && pos < next <= s.len() {
                        match parse_items(s, next, digits_value(line)) {
                            Some((items, q)) => Some((RespValue::Array(items), q)),
                            None => None,
                        }
                    } else {
                        None
                    }
                } else {
                    None
                }
            },
        }
    } else {
        None
    }
}

/// `n` values whose frames follow one another from `pos`, and the position after the last.
pub open spec fn parse_items(s: Seq<char>, pos: int, n: int) -> Option<(Seq<RespValue>, int)>
    decreases s.len() - pos, 1int,
{
    if n <= 0 {
        Some((seq![], pos))
    } else {
        match parse_at(s, pos) {
            Some((v, p)) => if pos < p <= s.len() {
                match parse_items(s, p, n - 1) {
                    Some((vs, q)) => Some((seq![v] + vs, q)),
                    None => None,
                }
            } else {
                None
            },
            None => None,
        }
    }
}

pub open spec fn ends_with_crlf(s: Seq<char>) -> bool {
    s.len() >= 2 && s[s.len() - 2] == '\r' && s[s.len() - 1] == '\n'
}

/// True when `m` ends with `tail`.
pub open spec fn ends_with(m: Seq<char>, tail: Seq<char>) -> bool {
    m.len() >= tail.len() && m.subrange(m.len() - tail.len(), m.len() as int) == tail
}

/// The value that a frame decodes to: the first value of the input, which must end with a
/// line terminator.
pub open spec fn decode_spec(s: Seq<char>) -> Option<RespValue> {
    if ends_with_crlf(s) {
        match parse_at(s, 0) {
            Some((v, _)) => Some(v),
            None => None,
        }
    } else {
        None
    }
}

// ---------------------------------------------------------------- decoding

pub(crate) fn text(m: &str) -> (r: String)
    ensures
        r@ == m@,
{
    String::from_str(m)
}

fn string_of(s: &Vec<char>, from: usize, to: usize) -> (r: String)
    requires
        from <= to <= s.len(),
    ensures
        r@ == s@.subrange(from as int, to as int),
{
    let mut out = String::new();
    let mut i = from;
    while i < to
        invariant
            from <= i <= to <= s.len(),
            out@ == s@.subrange(from as int, i as int),
        decreases to - i,
    {
        push_char(&mut out, s[i]);
        i = i + 1;
        assert(out@ =~= s@.subrange(from as int, i as int));
    }
    out
}

fn find_line_end(s: &Vec<char>, pos: usize) -> (r: Option<usize>)
    ensures
        r matches Some(j) ==> line_end(s@, pos as int) == Some(j as int),
        r is None ==> line_end(s@, pos as int) is None,
        r matches Some(j) ==> pos <= j && j + 1 < s.len() && s@[j as int] == '\r' && s@[j + 1]
            == '\n',
        r matches Some(j) ==> forall|k: int| pos <= k < j ==> s@[k] != '\r',
{
    let mut i = pos;
    while i < s.len()
        invariant
            pos <= i,
            line_end(s@, pos as int) == line_end(s@, i as int),
            forall|k: int| pos <= k < i ==> s@[k] != '\r',
        decreases s.len() - i,
    {
        if s[i] == '\r' {
            if i + 1 < s.len() && s[i + 1] == '\n' {
                return Some(i);
            } else {
                return None;
            }
        }
        i = i + 1;
    }
    None
}

proof fn lemma_digits_step(d: Seq<char>, k: int)
    requires
        0 <= k < d.len(),
    ensures
        digits_value(d.subrange(0, k + 1)) == digits_value(d.subrange(0, k)) * 10 + digit_value(
            d[k],
        ),
{
    assert(d.subrange(0, k + 1).drop_last() =~= d.subrange(0, k));
}

/// The value of the digits in `s[from..to]`, capped at `DIGIT_CAP`; `None` unless every
/// character there is a digit.
pub(crate) fn digits_capped(s: &Vec<char>, from: usize, to: usize) -> (r: Option<u128>)
    requires
        from <= to <= s.len(),
    ensures
        r is Some <==> all_digits(s@.subrange(from as int, to as int)),
        r matches Some(x) ==> {
            let v = digits_value(s@.subrange(from as int, to as int));
            &&& v >= 0
            &&& (v < DIGIT_CAP ==> x == v)
            &&& (v >= DIGIT_CAP ==> x == DIGIT_CAP)
        },
{
    let ghost d = s@.subrange(from as int, to as int);
    let mut acc: u128 = 0;
    let mut i = from;
    assert(d.subrange(0, 0) =~= seq![]);
    while i < to
        invariant
            from <= i <= to <= s.len(),
            d == s@.subrange(from as int, to as int),
            all_digits(d.subrange(0, i - from)),
            acc <= DIGIT_CAP,
            digits_value(d.subrange(0, i - from)) >= 0,
            digits_value(d.subrange(0, i - from)) < DIGIT_CAP ==> acc == digits_value(
                d.subrange(0, i - from),
            ),
            digits_value(d.subrange(0, i - from)) >= DIGIT_CAP ==> acc == DIGIT_CAP,
        decreases to - i,
    {
        let c = s[i];
        if !('0' <= c && c <= '9') {
            assert(!is_digit(d[i - from]));
            return None;
        }
        let dv: u128 = (c as u32 - '0' as u32) as u128;
        let ghost k = i - from;
        let ghost old_v = digits_value(d.subrange(0, k));
        proof {
            lemma_digits_step(d, k);
            assert(d[k] == c);
        }
        let next = acc * 10 + dv;
        if next > DIGIT_CAP {
            acc = DIGIT_CAP;
        } else {
            acc = next;
        }
        proof {
            let new_v = digits_value(d.subrange(0, k + 1));
            assert(new_v == old_v * 10 + dv);
            if old_v >= DIGIT_CAP {
                assert(new_v >= DIGIT_CAP) by (nonlinear_arith)
                    requires
                        new_v == old_v * 10 + dv,
                        old_v >= DIGIT_CAP,
                        dv >= 0,
                ;
            }
            assert forall|j: int| 0 <= j < k + 1 implies #[trigger] is_digit(
                d.subrange(0, k + 1)[j],
            ) by {
                if j < k {
                    assert(d.subrange(0, k + 1)[j] == d.subrange(0, k)[j]);
                }
            }
        }
        i = i + 1;
    }
    assert(d.subrange(0, i - from) =~= d);
    Some(acc)
}

proof fn lemma_take_end_step(s: Seq<char>, pos: int, n: int)
    requires
        n > 0,
        0 <= pos < s.len(),
    ensures
        take_end(s, pos, n) == take_end(s, pos + 1, n - char_width(s[pos])),
{
}

/// Where a payload of `n` bytes from `start` ends (see `take_end`), given `n` capped at
/// `DIGIT_CAP`.
fn find_take_end(s: &Vec<char>, start: usize, capped: u128, Ghost(n): Ghost<int>) -> (r: Option<
    usize,
>)
    requires
        start <= s.len(),
        n >= 0,
        n < DIGIT_CAP ==> capped == n,
        n >= DIGIT_CAP ==> capped == DIGIT_CAP,
    ensures
        r matches Some(q) ==> take_end(s@, start as int, n) == Some(q as int),
        r is None ==> take_end(s@, start as int, n) is None,
        r matches Some(q) ==> start <= q <= s.len(),
{
    let mut rem: i128 = capped as i128;
    let mut i = start;
    let ghost mut consumed: int = 0;
    while rem > 0
        invariant
            start <= i <= s.len(),
            consumed >= 0,
            consumed <= 4 * (i - start),
            take_end(s@, start as int, n) == take_end(s@, i as int, n - consumed),
            n < DIGIT_CAP ==> rem == n - consumed,
            n >= DIGIT_CAP ==> rem == DIGIT_CAP - consumed,
            rem <= DIGIT_CAP,
        decreases s.len() - i,
    {
        if i >= s.len() {
            return None;
        }
        let w = utf8_width(s[i]);
        proof {
            lemma_take_end_step(s@, i as int, n - consumed);
            consumed = consumed + w;
        }
        rem = rem - w as i128;
        i = i + 1;
    }
    if rem < 0 {
        return None;
    }
    Some(i)
}

fn parse_i64(s: &Vec<char>, from: usize, to: usize) -> (r: Option<i64>)
    requires
        from <= to <= s.len(),
    ensures
        r == (match int_of_text(s@.subrange(from as int, to as int)) {
            Some(i) => if i64::MIN <= i <= i64::MAX {
                Some(i as i64)
            } else {
                None::<i64>
            },
            None => None::<i64>,
        }),
{
    let ghost t = s@.subrange(from as int, to as int);
    if from < to && (s[from] == '-' || s[from] == '+') {
        assert(t.drop_first() =~= s@.subrange(from + 1, to as int));
        if from + 1 == to {
            return None;
        }
        match digits_capped(s, from + 1, to) {
            None => None,
            Some(v) => {
                if s[from] == '-' {
                    if v <= 0x8000000000000000 {
                        Some((-(v as i128)) as i64)
                    } else {
                        None
                    }
                } else {
                    if v <= 0x7fffffffffffffff {
                        Some(v as i64)
                    } else {
                        None
                    }
                }
            },
        }
    } else {
        if from == to {
            return None;
        }
        match digits_capped(s, from, to) {
            None => None,
            Some(v) => if v <= 0x7fffffffffffffff {
                Some(v as i64)
            } else {
                None
            },
        }
    }
}

proof fn lemma_parse_items_bounds(s: Seq<char>, pos: int, n: int)
    ensures
        parse_items(s, pos, n) matches Some((_, q)) ==> pos <= q,
    decreases s.len() - pos, 1int,
{
    if n > 0 {
        if let Some((v, p)) = parse_at(s, pos) {
            if pos < p <= s.len() {
                lemma_parse_items_bounds(s, p, n - 1);
            }
        }
    }
}

/// Decodes the value whose frame starts at `pos`; returns it with the position after it.
fn parse_value(s: &Vec<char>, pos: usize) -> (r: Result<(RESP, usize), String>)
    ensures
        match parse_at(s@, pos as int) {
            Some((v, p)) => r matches Ok((x, q)) && x@ == v && q == p,
            None => r is Err,
        },
        r matches Ok((_, q)) ==> pos < q <= s.len(),
    decreases s.len() - pos,
{
    if pos >= s.len() {
        return Err(text("unexpected end of input"));
    }
    let tag = s[pos];
    let j = match find_line_end(s, pos + 1) {
        Some(j) => j,
        None => {
            return Err(text("expected a line ending in carriage return and newline"));
        },
    };
    let next = j + 2;
    if tag == '+' {
        Ok((RESP::SimpleString(string_of(s, pos + 1, j)), next))
    } else if tag == '-' {
        Ok((RESP::Error(string_of(s, pos + 1, j)), next))
    } else if tag == ':' {
        match parse_i64(s, pos + 1, j) {
            Some(i) => Ok((RESP::Integer(i), next)),
            None => Err(text("invalid integer")),
        }
    } else if tag == '$' {
        if j == pos + 3 && s[pos + 1] == '-' && s[pos + 2] == '1' {
            assert(s@.subrange(pos + 1, j as int) =~= seq!['-', '1']);
            return Ok((RESP::BulkString(None), next));
        }
        assert(s@.subrange(pos + 1, j as int) != seq!['-', '1']) by {
            if s@.subrange(pos + 1, j as int) == seq!['-', '1'] {
                assert(s@.subrange(pos + 1, j as int).len() == 2);
                assert(s@.subrange(pos + 1, j as int)[0] == s@[pos + 1]);
                assert(s@.subrange(pos + 1, j as int)[1] == s@[pos + 2]);
            }
        }
        let n = match digits_capped(s, pos + 1, j) {
            Some(n) => n,
            None => {
                return Err(text("expected digits for the bulk string length"));
            },
        };
        let q = match find_take_end(
            s,
            next,
            n,
            Ghost(digits_value(s@.subrange(pos + 1, j as int))),
        ) {
            Some(q) => q,
            None => {
                return Err(text("bulk string shorter or longer than its length"));
            },
        };
        if q < s.len() && s.len() - q >= 2 && s[q] == '\r' && s[q + 1] == '\n' {
            Ok((RESP::BulkString(Some(string_of(s, next, q))), q + 2))
        } else {
            Err(text("expected carriage return and newline after bulk string"))
        }
    } else if tag == '*' {
        let count = match digits_capped(s, pos + 1, j) {
            Some(n) => n,
            None => {
                return Err(text("expected digits for the array length"));
            },
        };
        let ghost n = digits_value(s@.subrange(pos + 1, j as int));
        let mut items: Vec<RESP> = Vec::new();
        let mut cur = next;
        let mut k: u128 = 0;
        proof {
            assert(values_of(items@) =~= seq![]);
        }
        assert(parse_at(s@, pos as int) == (match parse_items(s@, next as int, n) {
            Some((vs, q)) => Some((RespValue::Array(vs), q)),
            None => None,
        }));
        while k < count
            invariant
                parse_at(s@, pos as int) == (match parse_items(s@, next as int, n) {
                    Some((vs, q)) => Some((RespValue::Array(vs), q)),
                    None => None,
                }),
                pos < next <= cur <= s.len(),
                n >= 0,
                n < DIGIT_CAP ==> count == n,
                n >= DIGIT_CAP ==> count == DIGIT_CAP,
                k <= count,
                k <= cur - next,
                parse_items(s@, next as int, n) == (match parse_items(s@, cur as int, n - k) {
                    Some((vs, q)) => Some((values_of(items@) + vs, q)),
                    None => None,
                }),
            decreases s.len() - cur,
        {
            assert(n - k > 0);
            let (v, p) = match parse_value(s, cur) {
                Ok(x) => x,
                Err(e) => {
                    return Err(e);
                },
            };
            proof {
                lemma_values_of_push(items@, v);
                lemma_parse_items_bounds(s@, p as int, n - k - 1);
                match parse_items(s@, p as int, n - k - 1) {
                    Some((vs, q)) => {
                        assert(values_of(items@) + (seq![v@] + vs) =~= values_of(items@.push(v))
                            + vs);
                    },
                    None => {},
                }
            }
            items.push(v);
            cur = p;
            k = k + 1;
        }
        proof {
            if n >= DIGIT_CAP {
                assert(false);
            }
            assert(values_of(items@) + seq![] =~= values_of(items@));
        }
        Ok((RESP::Array(items), cur))
    } else {
        Err(text("unknown type tag"))
    }
}

impl RESP {
    /// Decodes the first value of a frame; the frame must end with carriage return and newline.
    pub fn decode(s: &str) -> (r: Result<RESP, RESPParseError>)
        ensures
            match decode_spec(s@) {
                Some(v) => r matches Ok(x) && x@ == v,
                None => r is Err,
            },
    {
        let cs = chars_of(s);
        let n = cs.len();
        if !(n >= 2 && cs[n - 2] == '\r' && cs[n - 1] == '\n') {
            let mut m = text("missing newline at end of input: ");
            push_str(&mut m, s);
            assert(m@.subrange(m@.len() - s@.len(), m@.len() as int) =~= s@);
            return Err(RESPParseError::InvalidEncoding(m));
        }
        match parse_value(&cs, 0) {
            Ok((v, _)) => Ok(v),
            Err(e) => {
                let mut m = e;
                push_str(&mut m, ": ");
                push_str(&mut m, s);
                assert(m@.subrange(m@.len() - s@.len(), m@.len() as int) =~= s@);
                Err(RESPParseError::InvalidEncoding(m))
            },
        }
    }
}

// ---------------------------------------------------------------- plain text

/// The text of a value without its framing; the items of an array are joined by `", "`.
pub open spec fn plain_text(v: RespValue) -> Seq<char>
    decreases v,
{
    match v {
        RespValue::SimpleString(s) => s,
        RespValue::Error(s) => s,
        RespValue::Integer(i) => int_text(i as int),
        RespValue::BulkString(Some(s)) => s,
        RespValue::BulkString(None) => seq![],
        RespValue::Array(a) => joined_text(a),
    }
}

pub open spec fn joined_text(a: Seq<RespValue>) -> Seq<char>
    decreases a,
{
    if a.len() == 0 {
        seq![]
    } else if a.len() == 1 {
        plain_text(a[0])
    } else {
        joined_text(a.drop_last()) + seq![',', ' '] + plain_text(a.last())
    }
}

impl RESP {
    fn push_text(&self, out: &mut String)
        ensures
            final(out)@ == old(out)@ + plain_text(self@),
        decreases self,
    {
        match self {
            RESP::SimpleString(s) => push_string(out, s),
            RESP::Error(s) => push_string(out, s),
            RESP::Integer(i) => push_int(out, *i),
            RESP::BulkString(Some(s)) => push_string(out, s),
            RESP::BulkString(None) => {
                assert(old(out)@ + plain_text(self@) =~= old(out)@);
            },
            RESP::Array(a) => {
                let ghost start = out@;
                let ghost vals = values_of(a@);
                proof {
                    lemma_values_of_index(a@);
                    assert(vals.subrange(0, 0) =~= seq![]);
                    assert(decreases_to!(*self => *a));
                }
                let mut i: usize = 0;
                while i < a.len()
                    invariant
                        i <= a.len(),
                        vals == values_of(a@),
                        decreases_to!(*self => *a),
                        vals.len() == a@.len(),
                        forall|j: int| 0 <= j < a@.len() ==> #[trigger] vals[j] == value_of(a@[j]),
                        out@ == start + joined_text(vals.subrange(0, i as int)),
                    decreases a.len() - i,
                {
                    proof {
                        vstd::std_specs::vec::axiom_vec_index_decreases(*a, i as int);
                    }
                    if i > 0 {
                        push_char(out, ',');
                        push_char(out, ' ');
                    }
                    a[i].push_text(out);
                    proof {
                        let next = vals.subrange(0, i + 1);
                        assert(next.drop_last() =~= vals.subrange(0, i as int));
                        assert(next.last() == vals[i as int]);
                        assert(out@ =~= start + joined_text(next));
                    }
                    i = i + 1;
                }
                assert(vals.subrange(0, i as int) =~= vals);
            },
        }
    }

    /// The text of this value without its framing; array items are joined by `", "`.
    pub fn to_string(&self) -> (r: String)
        ensures
            r@ == plain_text(self@),
    {
        let mut out = String::new();
        self.push_text(&mut out);
        assert(out@ =~= plain_text(self@));
        out
    }

    /// A copy of this value.
    pub fn duplicate(&self) -> (r: RESP)
        ensures
            r@ == self@,
        decreases self,
    {
        match self {
            RESP::SimpleString(s) => RESP::SimpleString(s.clone()),
            RESP::Error(s) => RESP::Error(s.clone()),
            RESP::Integer(i) => RESP::Integer(*i),
            RESP::BulkString(None) => RESP::BulkString(None),
            RESP::BulkString(Some(s)) => RESP::BulkString(Some(s.clone())),
            RESP::Array(a) => {
                let mut items: Vec<RESP> = Vec::new();
                proof {
                    assert(decreases_to!(*self => *a));
                    assert(values_of(items@) =~= values_of(a@.subrange(0, 0)));
                }
                let mut i: usize = 0;
                while i < a.len()
                    invariant
                        i <= a.len(),
                        decreases_to!(*self => *a),
                        values_of(items@) == values_of(a@.subrange(0, i as int)),
                    decreases a.len() - i,
                {
                    proof {
                        vstd::std_specs::vec::axiom_vec_index_decreases(*a, i as int);
                    }
                    let x = a[i].duplicate();
                    proof {
                        lemma_values_of_push(items@, x);
                        lemma_values_of_push(a@.subrange(0, i as int), a@[i as int]);
                        assert(a@.subrange(0, i + 1) =~= a@.subrange(0, i as int).push(a@[i as int]));
                    }
                    items.push(x);
                    i = i + 1;
                }
                assert(a@.subrange(0, i as int) =~= a@);
                RESP::Array(items)
            },
        }
    }
}

impl Clone for RESP {
    fn clone(&self) -> (r: Self)
        ensures
            r@ == self@,
    {
        self.duplicate()
    }
}

} // verus!
