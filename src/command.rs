use vstd::prelude::*;
use crate::resp::{
    all_digits,
    chars_of,
    digits_value,
    lemma_values_of_index,
    lemma_values_of_push,
    plain_text,
    push_str,
    push_string,
    text,
    values_of,
    RespValue,
    RESP,
};
use crate::store::{is_expired, Store, StoreMap};

verus! {

/// The upper-case form of a text, as Unicode defines it.
pub uninterp spec fn upper_of(s: Seq<char>) -> Seq<char>;

/// Relies on str::to_uppercase: the upper-case form of a string, which depends on its
/// characters alone.
#[verifier::external_body]
fn to_upper(s: &str) -> (r: String)
    ensures
        r@ == upper_of(s@),
{
    s.to_uppercase()
}

/// The commands that the processor knows.
#[derive(Debug, PartialEq, Eq, Structural)]
pub enum CommandName {
    Ping,
    Echo,
    SetEntry,
    GetEntry,
    Other,
}

/// The command that an upper-case name stands for.
pub open spec fn command_name_of(upper: Seq<char>) -> CommandName {
    if upper == "PING"@ {
        CommandName::Ping
    } else if upper == "ECHO"@ {
        CommandName::Echo
    } else if upper == "SET"@ {
        CommandName::SetEntry
    } else if upper == "GET"@ {
        CommandName::GetEntry
    } else {
        CommandName::Other
    }
}

/// Milliseconds per unit of the TTL that an upper-case SET option introduces: 1000 for
/// `EX`, 1 for `PX`, 0 for anything else.
pub open spec fn unit_of(upper: Seq<char>) -> int {
    if upper == "EX"@ {
        1000
    } else if upper == "PX"@ {
        1
    } else {
        0
    }
}

/// The number that a TTL argument writes: an optional `+` and at least one digit, with a
/// value that fits in a `u128`.
pub open spec fn ttl_of_text(t: Seq<char>) -> Option<int> {
    let d = if t.len() > 0 && t[0] == '+' {
        t.drop_first()
    } else {
        t
    };
    if d.len() > 0 && all_digits(d) && digits_value(d) <= u128::MAX {
        Some(digits_value(d))
    } else {
        None
    }
}

/// `now + n * unit` milliseconds, saturating at the largest instant.
pub open spec fn expiry_after(now: u128, n: int, unit: int) -> u128 {
    if now + n * unit > u128::MAX {
        u128::MAX
    } else {
        (now + n * unit) as u128
    }
}

pub open spec fn syntax_error() -> RespValue {
    RespValue::Error("ERR syntax error"@)
}

pub open spec fn not_integer_error() -> RespValue {
    RespValue::Error("ERR value is not an integer or out of range"@)
}

pub open spec fn wrong_args_error() -> RespValue {
    RespValue::Error("ERR wrong number of arguments for command"@)
}

pub open spec fn invalid_command_error() -> RespValue {
    RespValue::Error("ERR invalid command"@)
}

/// The expiry that the options of SET give, starting from `exp`: each `EX n` or `PX n`
/// pair (keywords in any case) replaces it; anything else is an error reply.
pub open spec fn scan_options(opts: Seq<RespValue>, now: u128, exp: u128) -> Result<u128, RespValue>
    decreases opts.len(),
{
    if opts.len() == 0 {
        Ok(exp)
    } else {
        let unit = unit_of(upper_of(plain_text(opts[0])));
        if unit == 0 || opts.len() < 2 {
            Err(syntax_error())
        } else {
            match ttl_of_text(plain_text(opts[1])) {
                None => Err(not_integer_error()),
                Some(n) => scan_options(
                    opts.subrange(2, opts.len() as int),
                    now,
                    expiry_after(now, n, unit),
                ),
            }
        }
    }
}

/// The name and arguments of a request: an array whose first item is a non-null bulk string.
pub open spec fn command_parts(req: RespValue) -> Option<(Seq<char>, Seq<RespValue>)> {
    match req {
        RespValue::Array(a) => if a.len() > 0 && a[0] is BulkString && a[0]->BulkString_0 is Some {
            Some((a[0]->BulkString_0->Some_0, a.drop_first()))
        } else {
            None
        },
        _ => None,
    }
}

/// The reply to `req` and the store after it, given the store `m` before it and the
/// instant `now` in milliseconds. Command names match in any case.
pub open spec fn command_outcome(req: RespValue, m: StoreMap, now: u128) -> (RespValue, StoreMap) {
    match command_parts(req) {
        None => (invalid_command_error(), m),
        Some((name, args)) => match command_name_of(upper_of(name)) {
            CommandName::Ping => if args.len() == 0 {
                (RespValue::SimpleString("PONG"@), m)
            } else {
                (wrong_args_error(), m)
            },
            CommandName::Echo => if args.len() == 1 {
                (args[0], m)
            } else {
                (wrong_args_error(), m)
            },
            CommandName::SetEntry => if args.len() < 2 {
                (wrong_args_error(), m)
            } else {
                match scan_options(args.subrange(2, args.len() as int), now, 0) {
                    Ok(exp) => (
                        RespValue::SimpleString("OK"@),
                        m.insert(plain_text(args[0]), (plain_text(args[1]), exp)),
                    ),
                    Err(e) => (e, m),
                }
            },
            CommandName::GetEntry => if args.len() != 1 {
                (wrong_args_error(), m)
            } else {
                let k = plain_text(args[0]);
                match m.get(k) {
                    Some((v, exp)) => if is_expired(exp, now) {
                        (RespValue::BulkString(None), m.remove(k))
                    } else {
                        (RespValue::BulkString(Some(v)), m)
                    },
                    None => (RespValue::BulkString(None), m),
                }
            },
            CommandName::Other => (RespValue::Error("unknown command '"@ + name + "'"@), m),
        },
    }
}

/// Whether `a` holds exactly the characters of `w`.
fn same_text(a: &String, w: &str) -> (r: bool)
    ensures
        r == (a@ == w@),
{
    let cs = chars_of(a.as_str());
    let ws = chars_of(w);
    if cs.len() != ws.len() {
        return false;
    }
    let mut i: usize = 0;
    while i < cs.len()
        invariant
            cs@ == a@,
            ws@ == w@,
            cs.len() == ws.len(),
            i <= cs.len(),
            forall|j: int| 0 <= j < i ==> #[trigger] cs@[j] == ws@[j],
        decreases cs.len() - i,
    {
        if cs[i] != ws[i] {
            return false;
        }
        i = i + 1;
    }
    assert(cs@ =~= ws@);
    true
}

/// The command that an upper-case name stands for.
pub fn command_of(upper: &String) -> (r: CommandName)
    ensures
        r == command_name_of(upper@),
{
    if same_text(upper, "PING") {
        CommandName::Ping
    } else if same_text(upper, "ECHO") {
        CommandName::Echo
    } else if same_text(upper, "SET") {
        CommandName::SetEntry
    } else if same_text(upper, "GET") {
        CommandName::GetEntry
    } else {
        CommandName::Other
    }
}

/// Milliseconds per unit of the TTL that an upper-case SET option introduces (see
/// `unit_of`).
pub fn option_unit(upper: &String) -> (r: u128)
    ensures
        r == unit_of(upper@),
{
    if same_text(upper, "EX") {
        1000
    } else if same_text(upper, "PX") {
        1
    } else {
        0
    }
}

proof fn lemma_digits_nonneg(d: Seq<char>)
    requires
        all_digits(d),
    ensures
        digits_value(d) >= 0,
    decreases d.len(),
{
    if d.len() > 0 {
        lemma_digits_nonneg(d.drop_last());
        assert(crate::resp::is_digit(d[d.len() - 1]));
    }
}

/// Appending digits never makes a number smaller.
proof fn lemma_digits_prefix(d: Seq<char>, k: int)
    requires
        all_digits(d),
        0 <= k <= d.len(),
    ensures
        0 <= digits_value(d.subrange(0, k)) <= digits_value(d),
    decreases d.len(),
{
    lemma_digits_nonneg(d);
    if k == d.len() {
        assert(d.subrange(0, k) =~= d);
    } else {
        let e = d.drop_last();
        assert(all_digits(e)) by {
            assert forall|i: int| 0 <= i < e.len() implies #[trigger] crate::resp::is_digit(
                e[i],
            ) by {
                assert(e[i] == d[i]);
            }
        }
        lemma_digits_prefix(e, k);
        lemma_digits_nonneg(e);
        assert(e.subrange(0, k) =~= d.subrange(0, k));
        assert(crate::resp::is_digit(d[d.len() - 1]));
    }
}

/// The number that a TTL argument writes (see `ttl_of_text`).
fn parse_ttl(t: &String) -> (r: Option<u128>)
    ensures
        r matches Some(n) ==> ttl_of_text(t@) == Some(n as int),
        r is None ==> ttl_of_text(t@) is None,
{
    let cs = chars_of(t.as_str());
    let from: usize = if cs.len() > 0 && cs[0] == '+' {
        1
    } else {
        0
    };
    let ghost d = cs@.subrange(from as int, cs.len() as int);
    proof {
        if from == 1 {
            assert(t@.drop_first() =~= d);
        } else {
            assert(t@ =~= d);
        }
    }
    if from == cs.len() {
        return None;
    }
    let mut acc: u128 = 0;
    let mut i = from;
    assert(d.subrange(0, 0) =~= seq![]);
    assert(ttl_of_text(t@) == (if all_digits(d) && digits_value(d) <= u128::MAX {
        Some(digits_value(d))
    } else {
        None
    }));
    while i < cs.len()
        invariant
            from <= i <= cs.len(),
            ttl_of_text(t@) == (if all_digits(d) && digits_value(d) <= u128::MAX {
                Some(digits_value(d))
            } else {
                None
            }),
            d == cs@.subrange(from as int, cs.len() as int),
            all_digits(d.subrange(0, i - from)),
            acc == digits_value(d.subrange(0, i - from)),
        decreases cs.len() - i,
    {
        let c = cs[i];
        let ghost k = i - from;
        if !('0' <= c && c <= '9') {
            assert(!crate::resp::is_digit(d[k]));
            return None;
        }
        proof {
            assert(d.subrange(0, k + 1).drop_last() =~= d.subrange(0, k));
            assert(d[k] == c);
            assert forall|j: int| 0 <= j < k + 1 implies #[trigger] crate::resp::is_digit(
                d.subrange(0, k + 1)[j],
            ) by {
                if j < k {
                    assert(d.subrange(0, k + 1)[j] == d.subrange(0, k)[j]);
                }
            }
        }
        let dv: u128 = (c as u32 - '0' as u32) as u128;
        let next = match acc.checked_mul(10) {
            Some(x) => x.checked_add(dv),
            None => None,
        };
        match next {
            Some(x) => {
                acc = x;
            },
            None => {
                proof {
                    // the digits read so far already exceed the range; more digits only add
                    assert(digits_value(d.subrange(0, k + 1)) == acc * 10 + dv);
                    if all_digits(d) {
                        lemma_digits_prefix(d, k + 1);
                    }
                }
                return None;
            },
        }
        i = i + 1;
    }
    assert(d.subrange(0, i - from) =~= d);
    Some(acc)
}

/// Splits a request into its command name and its arguments.
fn extract_command_args(resp: &RESP) -> (r: Result<(String, Vec<RESP>), RESP>)
    ensures
        match command_parts(resp@) {
            Some((name, args)) => r matches Ok((c, v)) && c@ == name && values_of(v@) == args,
            None => r matches Err(e) && e@ == invalid_command_error(),
        },
{
    match resp {
        RESP::Array(a) => {
            proof {
                lemma_values_of_index(a@);
            }
            if a.len() == 0 {
                return Err(RESP::Error(text("ERR invalid command")));
            }
            match &a[0] {
                RESP::BulkString(Some(c)) => {
                    let ghost vals = values_of(a@);
                    let mut items: Vec<RESP> = Vec::new();
                    let mut j: usize = 1;
                    assert(values_of(items@) =~= vals.subrange(1, 1));
                    while j < a.len()
                        invariant
                            1 <= j <= a.len(),
                            vals == values_of(a@),
                            vals.len() == a@.len(),
                            forall|i: int| 0 <= i < a@.len() ==> #[trigger] vals[i] == a@[i]@,
                            values_of(items@) == vals.subrange(1, j as int),
                        decreases a.len() - j,
                    {
                        let x = a[j].duplicate();
                        proof {
                            lemma_values_of_push(items@, x);
                            assert(vals.subrange(1, j + 1) =~= vals.subrange(1, j as int).push(
                                vals[j as int],
                            ));
                        }
                        items.push(x);
                        j = j + 1;
                    }
                    assert(vals.subrange(1, j as int) =~= vals.drop_first());
                    Ok((c.clone(), items))
                },
                _ => Err(RESP::Error(text("ERR invalid command"))),
            }
        },
        _ => Err(RESP::Error(text("ERR invalid command"))),
    }
}

/// Reads the options of SET from `args[2..]`: the expiry they give, or the error reply.
fn set_expiry(args: &Vec<RESP>, now: u128) -> (r: Result<u128, RESP>)
    requires
        args.len() >= 2,
    ensures
        match scan_options(values_of(args@).subrange(2, args.len() as int), now, 0) {
            Ok(exp) => r == Ok::<u128, RESP>(exp),
            Err(e) => r matches Err(x) && x@ == e,
        },
{
    let ghost vals = values_of(args@);
    proof {
        lemma_values_of_index(args@);
    }
    let mut exp: u128 = 0;
    let mut i: usize = 2;
    while i < args.len()
        invariant
            2 <= i <= args.len(),
            vals == values_of(args@),
            vals.len() == args@.len(),
            forall|j: int| 0 <= j < args@.len() ==> #[trigger] vals[j] == args@[j]@,
            scan_options(vals.subrange(2, args.len() as int), now, 0) == scan_options(
                vals.subrange(i as int, args.len() as int),
                now,
                exp,
            ),
        decreases args.len() - i,
    {
        let ghost rest = vals.subrange(i as int, args.len() as int);
        assert(rest[0] == vals[i as int]);
        let tok = args[i].to_string();
        let unit = option_unit(&to_upper(tok.as_str()));
        if unit == 0 || i + 1 >= args.len() {
            return Err(RESP::Error(text("ERR syntax error")));
        }
        assert(rest[1] == vals[i + 1]);
        let n = match parse_ttl(&args[i + 1].to_string()) {
            Some(n) => n,
            None => {
                return Err(RESP::Error(text("ERR value is not an integer or out of range")));
            },
        };
        exp = match n.checked_mul(unit) {
            Some(step) => now.saturating_add(step),
            None => {
                assert(now + n * unit > u128::MAX) by (nonlinear_arith)
                    requires
                        n * unit > u128::MAX,
                ;
                u128::MAX
            },
        };
        assert(rest.subrange(2, rest.len() as int) =~= vals.subrange(i + 2, args.len() as int));
        i = i + 2;
    }
    assert(vals.subrange(i as int, args.len() as int) =~= Seq::<RespValue>::empty());
    Ok(exp)
}

/// Carries out one request against `store` at instant `now` (milliseconds) and returns the
/// reply.
pub fn process_command(resp: &RESP, store: &mut Store, now: u128) -> (r: RESP)
    requires
        old(store).wf(),
    ensures
        final(store).wf(),
        (r@, final(store)@) == command_outcome(resp@, old(store)@, now),
{
    let (command, args) = match extract_command_args(resp) {
        Ok(x) => x,
        Err(e) => {
            return e;
        },
    };
    proof {
        lemma_values_of_index(args@);
    }
    match command_of(&to_upper(command.as_str())) {
        CommandName::Ping => if args.len() == 0 {
            RESP::SimpleString(text("PONG"))
        } else {
            RESP::Error(text("ERR wrong number of arguments for command"))
        },
        CommandName::Echo => if args.len() == 1 {
            args[0].duplicate()
        } else {
            RESP::Error(text("ERR wrong number of arguments for command"))
        },
        CommandName::SetEntry => {
            if args.len() < 2 {
                return RESP::Error(text("ERR wrong number of arguments for command"));
            }
            match set_expiry(&args, now) {
                Ok(exp) => {
                    let key = args[0].to_string();
                    let value = args[1].to_string();
                    store.set(key, value, exp);
                    RESP::SimpleString(text("OK"))
                },
                Err(e) => e,
            }
        },
        CommandName::GetEntry => {
            if args.len() != 1 {
                return RESP::Error(text("ERR wrong number of arguments for command"));
            }
            let key = args[0].to_string();
            match store.get(&key, now) {
                Some(v) => RESP::BulkString(Some(v)),
                None => RESP::BulkString(None),
            }
        },
        CommandName::Other => {
            let mut m = text("unknown command '");
            push_string(&mut m, &command);
            push_str(&mut m, "'");
            RESP::Error(m)
        },
    }
}

} // verus!
