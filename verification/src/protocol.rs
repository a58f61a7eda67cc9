use vstd::prelude::*;
use vstd::string::*;

use crate::Request;
use crate::Response;

verus! {

pub open spec fn is_digit(c: char) -> bool {
    48 <= c as u32 <= 57
}

pub open spec fn digit_val(c: char) -> nat {
    (c as u32 - 48) as nat
}

pub open spec fn all_digits(s: Seq<char>) -> bool {
    forall|i: int| 0 <= i < s.len() ==> is_digit(s[i])
}

/// The numeric value of a string of decimal digits, most significant first.
pub open spec fn digits_val(s: Seq<char>) -> nat
    decreases s.len(),
{
    if s.len() == 0 {
        0
    } else {
        digits_val(s.drop_last()) * 10 + digit_val(s.last())
    }
}

/// The digits of a `GET` argument, with an optional leading `'+'` stripped.
pub open spec fn parse_body(s: Seq<char>) -> Seq<char> {
    if s.len() > 0 && s[0] == '+' {
        s.drop_first()
    } else {
        s
    }
}

/// `s` parses as a non-negative signed 64-bit integer literal: an optional
/// leading `'+'`, then one or more decimal digits, with a value that fits.
/// A leading `'-'` fails this predicate; a negative argument is rejected by
/// the decoder either way, since only strictly positive values are accepted.
pub open spec fn parse_ok(s: Seq<char>) -> bool {
    let b = parse_body(s);
    &&& b.len() > 0
    &&& all_digits(b)
    &&& digits_val(b) <= 0x7fff_ffff_ffff_ffff
}

pub open spec fn parse_val(s: Seq<char>) -> nat {
    digits_val(parse_body(s))
}

/// What decoding a raw request line yields: the two exact commands, a `GET`
/// with a strictly positive line number that fits a signed 64-bit value, and
/// everything else rejected.
pub open spec fn decode_spec(s: Seq<char>) -> Request {
    if s == "QUIT"@ {
        Request::QUIT
    } else if s == "SHUTDOWN"@ {
        Request::SHUTDOWN
    } else if s.len() >= 4 && s.subrange(0, 4) == "GET "@ {
        let rest = s.subrange(4, s.len() as int);
        if parse_ok(rest) && parse_val(rest) >= 1 {
            Request::GET(parse_val(rest) as u64)
        } else {
            Request::ERRONEOUS
        }
    } else {
        Request::ERRONEOUS
    }
}

/// What encoding a reply yields: a present line behind an `OK` banner, an
/// absent or failed one as the bare `ERR` banner. The transport appends the
/// line delimiter; the encoded text holds none.
pub open spec fn encode_spec(r: Response) -> Seq<char> {
    match r {
        Response::LINE(l) => "OK\r\n"@ + l@,
        Response::ERROR => "ERR\r\n"@,
    }
}

/// Growing a digit string can only grow its value.
proof fn lemma_digits_val_prefix_mono(s: Seq<char>, m: int)
    requires
        0 <= m <= s.len(),
    ensures
        digits_val(s.take(m)) <= digits_val(s),
    decreases s.len(),
{
    if m < s.len() {
        assert(s.drop_last().take(m) =~= s.take(m));
        lemma_digits_val_prefix_mono(s.drop_last(), m);
    } else {
        assert(s.take(m) =~= s);
    }
}

fn str_eq(a: &str, b: &str) -> (r: bool)
    ensures
        r == (a@ == b@),
{
    let n = a.unicode_len();
    if n != b.unicode_len() {
        return false;
    }
    let mut i: usize = 0;
    while i < n
        invariant
            n == a@.len(),
            n == b@.len(),
            i <= n,
            forall|j: int| 0 <= j < i ==> a@[j] == b@[j],
        decreases n - i,
    {
        if a.get_char(i) != b.get_char(i) {
            return false;
        }
        i += 1;
    }
    proof {
        assert(a@ =~= b@);
    }
    true
}

/// An implementation of the string/line based client-server protocol.
#[derive(Clone)]
pub struct StringProtocol;

impl StringProtocol {
    pub fn new() -> (p: StringProtocol) {
        StringProtocol
    }

    /// Decode one raw request line. Total: every input maps to exactly one of
    /// the four request variants.
    #[verifier::loop_isolation(false)]
    pub fn decode(&self, request: String) -> (r: Request)
        ensures
            r == decode_spec(request@),
    {
        let s = request.as_str();
        proof {
            reveal_strlit("QUIT");
            reveal_strlit("SHUTDOWN");
            reveal_strlit("GET ");
        }
        if str_eq(s, "QUIT") {
            return Request::QUIT;
        }
        if str_eq(s, "SHUTDOWN") {
            return Request::SHUTDOWN;
        }
        let n = s.unicode_len();
        if n < 4 || s.get_char(0) != 'G' || s.get_char(1) != 'E' || s.get_char(2) != 'T'
            || s.get_char(3) != ' ' {
            proof {
                if s@.len() >= 4 && s@.subrange(0, 4) == "GET "@ {
                    assert(s@.subrange(0, 4)[0] == s@[0]);
                    assert(s@.subrange(0, 4)[1] == s@[1]);
                    assert(s@.subrange(0, 4)[2] == s@[2]);
                    assert(s@.subrange(0, 4)[3] == s@[3]);
                }
            }
            return Request::ERRONEOUS;
        }
        proof {
            assert(s@.subrange(0, 4) =~= "GET "@);
        }
        let ghost rest = s@.subrange(4, n as int);
        if n == 4 {
            // an empty argument: no digits to parse
            assert(parse_body(rest) =~= rest);
            return Request::ERRONEOUS;
        }
        let mut i: usize = 4;
        if s.get_char(4) == '+' {
            i = 5;
        }
        proof {
            assert(rest[0] == s@[4]);
            if i == 5 {
                assert(parse_body(rest) =~= s@.subrange(5, n as int));
            } else {
                assert(parse_body(rest) =~= s@.subrange(4, n as int));
            }
        }
        let ghost body = s@.subrange(i as int, n as int);
        proof {
            assert(body == parse_body(rest));
        }
        if i == n {
            // nothing after the sign: no digits to parse
            return Request::ERRONEOUS;
        }
        let mut acc: u64 = 0;
        let mut j: usize = i;
        while j < n
            invariant
                4 <= i <= j <= n,
                n == s@.len(),
                body == s@.subrange(i as int, n as int),
                acc <= 0x7fff_ffff_ffff_ffff,
                acc == digits_val(s@.subrange(i as int, j as int)),
                forall|m: int| i <= m < j ==> is_digit(s@[m]),
            decreases n - j,
        {
            let c = s.get_char(j);
            let u = c as u32;
            if u < 48 || u > 57 {
                // a non-digit in the argument
                proof {
                    assert(body[j - i] == s@[j as int]);
                    assert(!is_digit(body[j - i]));
                    assert(!all_digits(body));
                }
                return Request::ERRONEOUS;
            }
            let d = (u - 48) as u64;
            proof {
                assert(s@.subrange(i as int, j + 1).drop_last() =~= s@.subrange(
                    i as int,
                    j as int,
                ));
                assert(s@.subrange(i as int, j + 1).last() == s@[j as int]);
                assert(digit_val(s@[j as int]) == d);
            }
            if acc > 922337203685477580 || (acc == 922337203685477580 && d > 7) {
                // the value can no longer fit a signed 64-bit integer
                proof {
                    let grown = s@.subrange(i as int, j + 1);
                    assert(digits_val(grown) == acc * 10 + d);
                    assert(digits_val(grown) > 0x7fff_ffff_ffff_ffff);
                    assert(body.take(j + 1 - i) =~= grown);
                    lemma_digits_val_prefix_mono(body, j + 1 - i);
                    assert(digits_val(body) > 0x7fff_ffff_ffff_ffff);
                }
                return Request::ERRONEOUS;
            }
            acc = acc * 10 + d;
            j += 1;
        }
        proof {
            assert(body =~= s@.subrange(i as int, j as int));
            assert(all_digits(body));
            assert(parse_ok(rest) && parse_val(rest) == acc);
        }
        if acc == 0 {
            return Request::ERRONEOUS;
        }
        Request::GET(acc)
    }

    /// Encode one reply into the raw line to be written back.
    pub fn encode(&self, response: Response) -> (r: String)
        ensures
            r@ == encode_spec(response),
    {
        match response {
            Response::LINE(line) => {
                let mut out = String::from_str("OK\r\n");
                out.append(line.as_str());
                out
            },
            Response::ERROR => String::from_str("ERR\r\n"),
        }
    }
}


/// The character for the decimal digit `d`.
pub open spec fn digit_char(d: nat) -> char {
    if d == 0 {
        '0'
    } else if d == 1 {
        '1'
    } else if d == 2 {
        '2'
    } else if d == 3 {
        '3'
    } else if d == 4 {
        '4'
    } else if d == 5 {
        '5'
    } else if d == 6 {
        '6'
    } else if d == 7 {
        '7'
    } else if d == 8 {
        '8'
    } else {
        '9'
    }
}

/// The canonical decimal rendering of `n`, most significant digit first.
pub open spec fn dec_digits(n: nat) -> Seq<char>
    decreases n,
{
    if n < 10 {
        seq![digit_char(n)]
    } else {
        dec_digits(n / 10).push(digit_char(n % 10))
    }
}

proof fn lemma_digit_char_val(d: nat)
    requires
        d < 10,
    ensures
        is_digit(digit_char(d)),
        digit_val(digit_char(d)) == d,
{
    assert('0' as u32 == 48 && '1' as u32 == 49 && '2' as u32 == 50 && '3' as u32 == 51
        && '4' as u32 == 52 && '5' as u32 == 53 && '6' as u32 == 54 && '7' as u32 == 55
        && '8' as u32 == 56 && '9' as u32 == 57);
}

pub proof fn lemma_dec_digits_val(n: nat)
    ensures
        dec_digits(n).len() >= 1,
        all_digits(dec_digits(n)),
        digits_val(dec_digits(n)) == n,
    decreases n,
{
    if n < 10 {
        lemma_digit_char_val(n);
        assert(dec_digits(n) == seq![digit_char(n)]);
        assert(dec_digits(n).drop_last() =~= Seq::<char>::empty());
        assert(dec_digits(n).last() == digit_char(n));
        assert(digits_val(dec_digits(n)) == digits_val(Seq::<char>::empty()) * 10 + digit_val(
            digit_char(n),
        ));
    } else {
        lemma_dec_digits_val(n / 10);
        lemma_digit_char_val(n % 10);
        let s = dec_digits(n / 10);
        let d = digit_char(n % 10);
        assert(s.push(d).drop_last() =~= s);
        assert(s.push(d).last() == d);
        assert(digits_val(s.push(d)) == digits_val(s) * 10 + digit_val(d));
        assert((n / 10) * 10 + (n % 10) == n);
        assert forall|i: int| 0 <= i < s.push(d).len() implies is_digit(s.push(d)[i]) by {
            if i < s.len() {
                assert(s.push(d)[i] == s[i]);
            }
        }
    }
}

/// The raw request line asking for line `n`.
pub open spec fn get_request(n: nat) -> Seq<char> {
    "GET "@ + dec_digits(n)
}

/// Decoding a request built from any valid line number yields exactly that
/// `GET`: the codec loses nothing on the round trip.
pub proof fn lemma_get_round_trip(n: u64)
    requires
        1 <= n <= 0x7fff_ffff_ffff_ffff,
    ensures
        decode_spec(get_request(n as nat)) == Request::GET(n),
{
    reveal_strlit("GET ");
    reveal_strlit("QUIT");
    reveal_strlit("SHUTDOWN");
    lemma_dec_digits_val(n as nat);
    let s = get_request(n as nat);
    let digits = dec_digits(n as nat);
    assert(s[0] == 'G');
    assert(s != "QUIT"@);
    assert(s != "SHUTDOWN"@);
    assert(s.len() >= 5);
    assert(s.subrange(0, 4) =~= "GET "@);
    let rest = s.subrange(4, s.len() as int);
    assert(rest =~= digits);
    assert(is_digit(rest[0]));
    assert(rest[0] != '+');
    assert(parse_body(rest) == rest);
    assert(parse_ok(rest));
    assert(parse_val(rest) == n);
}

} // verus!
