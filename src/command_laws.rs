use vstd::prelude::*;
use crate::command::{
    command_name_of,
    command_outcome,
    expiry_after,
    scan_options,
    ttl_of_text,
    unit_of,
    upper_of,
    CommandName,
};
use crate::resp::{is_digit, nat_digits, RespValue};
use crate::round_trip::lemma_nat_digits;
use crate::store::{is_expired, StoreMap};

verus! {

pub open spec fn bulk(t: Seq<char>) -> RespValue {
    RespValue::BulkString(Some(t))
}

/// The request made of the single word `name`.
pub open spec fn bare_request(name: Seq<char>) -> RespValue {
    RespValue::Array(seq![bulk(name)])
}

/// The request `<name> k v`, followed by the given options.
pub open spec fn set_request(name: Seq<char>, k: Seq<char>, v: Seq<char>, opts: Seq<RespValue>) -> RespValue {
    RespValue::Array(seq![bulk(name), bulk(k), bulk(v)] + opts)
}

/// The request `<name> k`.
pub open spec fn get_request(name: Seq<char>, k: Seq<char>) -> RespValue {
    RespValue::Array(seq![bulk(name), bulk(k)])
}

proof fn lemma_command_words()
    ensures
        command_name_of("PING"@) == CommandName::Ping,
        command_name_of("SET"@) == CommandName::SetEntry,
        command_name_of("GET"@) == CommandName::GetEntry,
        unit_of("EX"@) == 1000,
        unit_of("PX"@) == 1,
{
    reveal_strlit("PING");
    reveal_strlit("ECHO");
    reveal_strlit("SET");
    reveal_strlit("GET");
    reveal_strlit("EX");
    reveal_strlit("PX");
    assert(("PING"@).len() == 4 && ("ECHO"@).len() == 4);
    assert(("SET"@).len() == 3 && ("GET"@).len() == 3);
    assert("SET"@ != "PING"@);
    assert("SET"@ != "ECHO"@);
    assert("GET"@ != "PING"@);
    assert("GET"@ != "ECHO"@);
    assert("GET"@ != "SET"@) by {
        assert(("GET"@)[0] != ("SET"@)[0]);
    }
    assert("PX"@ != "EX"@) by {
        assert(("PX"@)[0] != ("EX"@)[0]);
    }
}

proof fn lemma_ttl_digits(n: nat)
    requires
        n <= u128::MAX,
    ensures
        ttl_of_text(nat_digits(n)) == Some(n as int),
{
    lemma_nat_digits(n);
    assert(is_digit(nat_digits(n)[0]));
}

/// The outcome of SET with one expiry option `word n`.
proof fn lemma_set_with_option(
    m: StoreMap,
    name: Seq<char>,
    k: Seq<char>,
    v: Seq<char>,
    word: Seq<char>,
    n: nat,
    unit: int,
    now: u128,
)
    requires
        upper_of(name) == "SET"@,
        n <= u128::MAX,
        unit == unit_of(upper_of(word)),
        unit != 0,
    ensures
        command_outcome(set_request(name, k, v, seq![bulk(word), bulk(nat_digits(n))]), m, now)
            == (RespValue::SimpleString("OK"@), m.insert(k, (v, expiry_after(now, n as int, unit)))),
{
    lemma_command_words();
    lemma_ttl_digits(n);
    let opts = seq![bulk(word), bulk(nat_digits(n))];
    let a = seq![bulk(name), bulk(k), bulk(v)] + opts;
    assert(a.drop_first().subrange(2, 4) =~= opts);
    assert(opts.subrange(2, 2) =~= Seq::<RespValue>::empty());
    let e = expiry_after(now, n as int, unit);
    assert(scan_options(opts.subrange(2, 2), now, e) == Ok::<u128, RespValue>(e));
    assert(scan_options(opts, now, 0) == Ok::<u128, RespValue>(e));
}

/// A PING, in any spelling that upper-cases to `PING`, is answered with `PONG` whatever
/// the store holds, and leaves it as it is.
pub proof fn lemma_ping(m: StoreMap, name: Seq<char>, now: u128)
    requires
        upper_of(name) == "PING"@,
    ensures
        command_outcome(bare_request(name), m, now) == (RespValue::SimpleString("PONG"@), m),
{
    lemma_command_words();
}

/// After SET k v without options, a GET k returns `v` at every instant.
pub proof fn lemma_set_then_get(
    m: StoreMap,
    set_name: Seq<char>,
    get_name: Seq<char>,
    k: Seq<char>,
    v: Seq<char>,
    t1: u128,
    t2: u128,
)
    requires
        upper_of(set_name) == "SET"@,
        upper_of(get_name) == "GET"@,
    ensures
        ({
            let (r1, m1) = command_outcome(set_request(set_name, k, v, seq![]), m, t1);
            &&& r1 == RespValue::SimpleString("OK"@)
            &&& command_outcome(get_request(get_name, k), m1, t2) == (
                RespValue::BulkString(Some(v)),
                m1,
            )
        }),
{
    lemma_command_words();
    let a = seq![bulk(set_name), bulk(k), bulk(v)] + seq![];
    assert(a.drop_first().subrange(2, 2) =~= Seq::<RespValue>::empty());
    let m1 = m.insert(k, (v, 0u128));
    assert(m1.get(k) == Some((v, 0u128)));
}

/// After SET k v PX n, a GET k once more than `n` milliseconds have passed finds nothing
/// and removes the key, so that later reads find nothing either.
pub proof fn lemma_px_expiry(
    m: StoreMap,
    set_name: Seq<char>,
    get_name: Seq<char>,
    px: Seq<char>,
    k: Seq<char>,
    v: Seq<char>,
    n: nat,
    t1: u128,
    t2: u128,
    t3: u128,
)
    requires
        upper_of(set_name) == "SET"@,
        upper_of(get_name) == "GET"@,
        upper_of(px) == "PX"@,
        0 < t1 + n < t2,
    ensures
        ({
            let (r1, m1) = command_outcome(
                set_request(set_name, k, v, seq![bulk(px), bulk(nat_digits(n))]),
                m,
                t1,
            );
            let (r2, m2) = command_outcome(get_request(get_name, k), m1, t2);
            &&& r1 == RespValue::SimpleString("OK"@)
            &&& r2 == RespValue::BulkString(None)
            &&& !m2.contains_key(k)
            &&& command_outcome(get_request(get_name, k), m2, t3).0 == RespValue::BulkString(None)
        }),
{
    lemma_command_words();
    lemma_set_with_option(m, set_name, k, v, px, n, 1, t1);
    assert(n as int * 1 == n);
    let exp = expiry_after(t1, n as int, 1);
    let m1 = m.insert(k, (v, exp));
    assert(m1.get(k) == Some((v, exp)));
    assert(is_expired(exp, t2));
    let m2 = m1.remove(k);
    assert(m2.get(k) is None);
}

/// After SET k v EX n, a GET k within `n` seconds returns `v`.
pub proof fn lemma_ex_before_expiry(
    m: StoreMap,
    set_name: Seq<char>,
    get_name: Seq<char>,
    ex: Seq<char>,
    k: Seq<char>,
    v: Seq<char>,
    n: nat,
    t1: u128,
    t2: u128,
)
    requires
        upper_of(set_name) == "SET"@,
        upper_of(get_name) == "GET"@,
        upper_of(ex) == "EX"@,
        n <= u128::MAX,
        t1 <= t2 <= t1 + n * 1000,
    ensures
        ({
            let (r1, m1) = command_outcome(
                set_request(set_name, k, v, seq![bulk(ex), bulk(nat_digits(n))]),
                m,
                t1,
            );
            &&& r1 == RespValue::SimpleString("OK"@)
            &&& command_outcome(get_request(get_name, k), m1, t2) == (
                RespValue::BulkString(Some(v)),
                m1,
            )
        }),
{
    lemma_command_words();
    lemma_set_with_option(m, set_name, k, v, ex, n, 1000, t1);
    let exp = expiry_after(t1, n as int, 1000);
    let m1 = m.insert(k, (v, exp));
    assert(m1.get(k) == Some((v, exp)));
    assert(!is_expired(exp, t2));
}

} // verus!
