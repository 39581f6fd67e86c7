use vstd::prelude::*;

use crate::chars::{chars_of, push_char};

verus! {

/// A participant identity: an individual account or a broadcast channel,
/// each with its numeric id.
#[derive(Debug, Clone, Copy, PartialEq, Eq, Structural, PartialOrd, Ord, Hash)]
pub enum Id {
    User(i64),
    Channel(i64),
}

/// Why an identity text was rejected.
#[derive(Debug, Clone, Copy, PartialEq, Eq, Structural)]
pub enum DecodeError {
    InvalidIdentity,
}

pub open spec fn is_digit(c: char) -> bool {
    '0' <= c <= '9'
}

pub open spec fn digit_value(c: char) -> int {
    (c as u32) as int - 48
}

pub open spec fn digit_char(d: nat) -> char {
    ((48 + d) as u8) as char
}

pub open spec fn all_digits(s: Seq<char>) -> bool {
    forall|i: int| 0 <= i < s.len() ==> is_digit(#[trigger] s[i])
}

/// The value of a run of decimal digits, most significant first.
pub open spec fn digits_value(s: Seq<char>) -> int
    decreases s.len(),
{
    if s.len() == 0 {
        0
    } else {
        digits_value(s.drop_last()) * 10 + digit_value(s.last())
    }
}

/// The shortest decimal digits of `n`.
pub open spec fn dec_digits(n: nat) -> Seq<char>
    decreases n,
{
    if n < 10 {
        seq![digit_char(n)]
    } else {
        dec_digits(n / 10).push(digit_char(n % 10))
    }
}

/// The decimal text of an integer, with a leading `-` when negative.
pub open spec fn dec_text(n: int) -> Seq<char> {
    if n < 0 {
        seq!['-'] + dec_digits((-n) as nat)
    } else {
        dec_digits(n as nat)
    }
}

/// What parsing a 64-bit signed integer accepts: an optional sign, then at
/// least one decimal digit, and a value in range.
pub open spec fn parse_i64_spec(s: Seq<char>) -> Option<int> {
    let neg = s.len() > 0 && s[0] == '-';
    let body = if s.len() > 0 && (s[0] == '-' || s[0] == '+') {
        s.drop_first()
    } else {
        s
    };
    let v = if neg {
        -digits_value(body)
    } else {
        digits_value(body)
    };
    if body.len() == 0 || !all_digits(body) || v < i64::MIN || v > i64::MAX {
        None
    } else {
        Some(v)
    }
}

pub open spec fn user_prefix() -> Seq<char> {
    seq!['u', 's', 'e', 'r']
}

pub open spec fn channel_prefix() -> Seq<char> {
    seq!['c', 'h', 'a', 'n', 'n', 'e', 'l']
}

pub open spec fn has_prefix(s: Seq<char>, p: Seq<char>) -> bool {
    p.len() <= s.len() && s.subrange(0, p.len() as int) == p
}

/// The identity that a text denotes, if any.
pub open spec fn decode_spec(s: Seq<char>) -> Option<Id> {
    if has_prefix(s, user_prefix()) {
        match parse_i64_spec(s.skip(4)) {
            Some(v) => Some(Id::User(v as i64)),
            None => None,
        }
    } else if has_prefix(s, channel_prefix()) {
        match parse_i64_spec(s.skip(7)) {
            Some(v) => Some(Id::Channel(v as i64)),
            None => None,
        }
    } else {
        None
    }
}

/// The external text of an identity.
pub open spec fn encode_spec(id: Id) -> Seq<char> {
    match id {
        Id::User(x) => user_prefix() + dec_text(x as int),
        Id::Channel(x) => channel_prefix() + dec_text(x as int),
    }
}

/// The number part of an identity text is written the way encoding writes it:
/// no `+` sign, no leading zero, no `-0`.
pub open spec fn canonical_number(s: Seq<char>) -> bool {
    let body = if s.len() > 0 && s[0] == '-' {
        s.drop_first()
    } else {
        s
    };
    &&& s.len() > 0 && s[0] != '+'
    &&& body.len() > 0 && (body[0] != '0' || (body.len() == 1 && s[0] != '-'))
}

/// An identity text that decodes and is written in its shortest form.
pub open spec fn well_formed_id_text(s: Seq<char>) -> bool {
    &&& decode_spec(s) is Some
    &&& canonical_number(
        if has_prefix(s, user_prefix()) {
            s.skip(4)
        } else {
            s.skip(7)
        },
    )
}

impl Id {
    pub open spec fn num_spec(self) -> i64 {
        match self {
            Id::User(x) => x,
            Id::Channel(x) => x,
        }
    }

    /// The numeric id, whatever the namespace.
    pub fn as_num(&self) -> (r: i64)
        ensures
            r == self.num_spec(),
    {
        match self {
            Id::User(x) => *x,
            Id::Channel(x) => *x,
        }
    }

    /// Reads an identity from its external text: `user<n>` or `channel<n>`.
    pub fn decode(s: &str) -> (r: Result<Id, DecodeError>)
        ensures
            r matches Ok(id) ==> decode_spec(s@) == Some(id),
            r is Err <==> decode_spec(s@) is None,
    {
        let cs = chars_of(s);
        if cs.len() >= 4 && cs[0] == 'u' && cs[1] == 's' && cs[2] == 'e' && cs[3] == 'r' {
            assert(s@.subrange(0, 4) =~= user_prefix());
            match parse_i64(&cs, 4) {
                Some(v) => Ok(Id::User(v)),
                None => Err(DecodeError::InvalidIdentity),
            }
        } else if cs.len() >= 7 && cs[0] == 'c' && cs[1] == 'h' && cs[2] == 'a' && cs[3] == 'n'
            && cs[4] == 'n' && cs[5] == 'e' && cs[6] == 'l' {
            assert(s@.subrange(0, 7) =~= channel_prefix());
            assert(!has_prefix(s@, user_prefix())) by {
                assert(s@.subrange(0, 4)[0] == 'c');
            }
            match parse_i64(&cs, 7) {
                Some(v) => Ok(Id::Channel(v)),
                None => Err(DecodeError::InvalidIdentity),
            }
        } else {
            assert(!has_prefix(s@, user_prefix())) by {
                if has_prefix(s@, user_prefix()) {
                    assert(s@.subrange(0, 4)[0] == s@[0]);
                    assert(s@.subrange(0, 4)[3] == s@[3]);
                    assert(s@.subrange(0, 4)[1] == s@[1]);
                    assert(s@.subrange(0, 4)[2] == s@[2]);
                }
            }
            assert(!has_prefix(s@, channel_prefix())) by {
                if has_prefix(s@, channel_prefix()) {
                    assert(s@.subrange(0, 7)[0] == s@[0]);
                    assert(s@.subrange(0, 7)[1] == s@[1]);
                    assert(s@.subrange(0, 7)[2] == s@[2]);
                    assert(s@.subrange(0, 7)[3] == s@[3]);
                    assert(s@.subrange(0, 7)[4] == s@[4]);
                    assert(s@.subrange(0, 7)[5] == s@[5]);
                    assert(s@.subrange(0, 7)[6] == s@[6]);
                }
            }
            Err(DecodeError::InvalidIdentity)
        }
    }

    /// Writes an identity as its external text.
    pub fn encode(&self) -> (r: String)
        ensures
            r@ == encode_spec(*self),
    {
        let mut out = String::new();
        match self {
            Id::User(x) => {
                push_char(&mut out, 'u');
                push_char(&mut out, 's');
                push_char(&mut out, 'e');
                push_char(&mut out, 'r');
                assert(out@ =~= user_prefix());
                write_decimal(*x, &mut out);
            },
            Id::Channel(x) => {
                push_char(&mut out, 'c');
                push_char(&mut out, 'h');
                push_char(&mut out, 'a');
                push_char(&mut out, 'n');
                push_char(&mut out, 'n');
                push_char(&mut out, 'e');
                push_char(&mut out, 'l');
                assert(out@ =~= channel_prefix());
                write_decimal(*x, &mut out);
            },
        }
        out
    }
}

/// Appends the decimal digits of `n`.
fn write_digits(n: u64, out: &mut String)
    ensures
        final(out)@ == old(out)@ + dec_digits(n as nat),
    decreases n,
{
    if n >= 10 {
        write_digits(n / 10, out);
    }
    let d: u8 = (n % 10) as u8;
    push_char(out, (48u8 + d) as char);
    if n >= 10 {
        assert(dec_digits(n as nat) == dec_digits((n / 10) as nat).push(digit_char((n % 10) as nat)));
    }
    assert(final(out)@ =~= old(out)@ + dec_digits(n as nat));
}

/// Appends the decimal text of `x`.
pub(crate) fn write_decimal(x: i64, out: &mut String)
    ensures
        final(out)@ == old(out)@ + dec_text(x as int),
{
    if x < 0 {
        push_char(out, '-');
        let mag: u64 = (-(x as i128)) as u64;
        write_digits(mag, out);
        assert(final(out)@ =~= old(out)@ + dec_text(x as int));
    } else {
        write_digits(x as u64, out);
    }
}

proof fn lemma_digits_value_prefix_le(s: Seq<char>, j: int)
    requires
        all_digits(s),
        0 <= j <= s.len(),
    ensures
        0 <= digits_value(s.subrange(0, j)) <= digits_value(s),
    decreases s.len(),
{
    if s.len() > 0 {
        assert(all_digits(s.drop_last()));
        lemma_digits_value_prefix_le(s.drop_last(), 0);
        if j < s.len() {
            lemma_digits_value_prefix_le(s.drop_last(), j);
            assert(s.drop_last().subrange(0, j) =~= s.subrange(0, j));
        } else {
            assert(s.subrange(0, j) =~= s);
        }
    } else {
        assert(s.subrange(0, j) =~= s);
    }
}

proof fn lemma_digit_char(d: nat)
    requires
        d < 10,
    ensures
        is_digit(digit_char(d)),
        digit_value(digit_char(d)) == d,
        d != 0 ==> digit_char(d) != '0',
{
}

proof fn lemma_dec_digits(n: nat)
    ensures
        dec_digits(n).len() > 0,
        all_digits(dec_digits(n)),
        digits_value(dec_digits(n)) == n,
    decreases n,
{
    if n < 10 {
        lemma_digit_char(n);
        assert(seq![digit_char(n)].drop_last() =~= Seq::<char>::empty());
        assert(digits_value(Seq::<char>::empty()) == 0);
    } else {
        lemma_dec_digits(n / 10);
        lemma_digit_char(n % 10);
        let t = dec_digits(n / 10).push(digit_char(n % 10));
        assert(t.drop_last() =~= dec_digits(n / 10));
        assert forall|i: int| 0 <= i < t.len() implies is_digit(#[trigger] t[i]) by {
            if i < t.len() - 1 {
                assert(t[i] == dec_digits(n / 10)[i]);
            }
        }
    }
}

proof fn lemma_digits_value_positive(b: Seq<char>)
    requires
        b.len() > 0,
        all_digits(b),
        b[0] != '0',
    ensures
        digits_value(b) >= 1,
        b.len() > 1 ==> digits_value(b) >= 10,
    decreases b.len(),
{
    if b.len() > 1 {
        let p = b.drop_last();
        assert(p[0] == b[0]);
        assert(all_digits(p)) by {
            assert forall|i: int| 0 <= i < p.len() implies is_digit(#[trigger] p[i]) by {
                assert(p[i] == b[i]);
            }
        }
        lemma_digits_value_positive(p);
        assert(is_digit(b.last()));
    } else {
        assert(b.drop_last() =~= Seq::<char>::empty());
        assert(digits_value(Seq::<char>::empty()) == 0);
        assert(is_digit(b[0]));
        assert(b.last() == b[0]);
    }
}

proof fn lemma_dec_digits_of_value(b: Seq<char>)
    requires
        b.len() > 0,
        all_digits(b),
        b[0] != '0' || b.len() == 1,
    ensures
        dec_digits(digits_value(b) as nat) == b,
    decreases b.len(),
{
    let p = b.drop_last();
    assert(is_digit(b.last()));
    if b.len() == 1 {
        assert(p =~= Seq::<char>::empty());
        assert(digits_value(Seq::<char>::empty()) == 0);
        assert(b.last() == b[0]);
        let d = digit_value(b[0]);
        assert(digits_value(b) == d);
        assert(digit_char(d as nat) == b[0]) by {
            assert(((48 + d) as u8) as char == b[0]);
        }
        assert(seq![b[0]] =~= b);
    } else {
        assert(p[0] == b[0]);
        assert(all_digits(p)) by {
            assert forall|i: int| 0 <= i < p.len() implies is_digit(#[trigger] p[i]) by {
                assert(p[i] == b[i]);
            }
        }
        lemma_digits_value_positive(p);
        lemma_dec_digits_of_value(p);
        lemma_digit_prefix_nonneg(p);
        let v = digits_value(b);
        let d = digit_value(b.last());
        assert(v / 10 == digits_value(p));
        assert(v % 10 == d);
        assert(digit_char(d as nat) == b.last()) by {
            assert(((48 + d) as u8) as char == b.last());
        }
        assert(p.push(b.last()) =~= b);
    }
}

proof fn lemma_digit_prefix_nonneg(b: Seq<char>)
    requires
        all_digits(b),
    ensures
        digits_value(b) >= 0,
{
    lemma_digits_value_prefix_le(b, 0);
    assert(b.subrange(0, 0) =~= Seq::<char>::empty());
}

proof fn lemma_parse_dec_text(x: i64)
    ensures
        parse_i64_spec(dec_text(x as int)) == Some(x as int),
{
    let s = dec_text(x as int);
    if x < 0 {
        let m = (-(x as int)) as nat;
        lemma_dec_digits(m);
        assert(s.drop_first() =~= dec_digits(m));
    } else {
        lemma_dec_digits(x as nat);
        assert(is_digit(s[0]));
    }
}

proof fn lemma_skip_prefix(p: Seq<char>, t: Seq<char>)
    ensures
        has_prefix(p + t, p),
        (p + t).skip(p.len() as int) == t,
{
    assert((p + t).subrange(0, p.len() as int) =~= p);
    assert((p + t).skip(p.len() as int) =~= t);
}

/// Decoding the text of an identity gives that identity back.
pub proof fn lemma_decode_encode(id: Id)
    ensures
        decode_spec(encode_spec(id)) == Some(id),
{
    match id {
        Id::User(x) => {
            lemma_skip_prefix(user_prefix(), dec_text(x as int));
            lemma_parse_dec_text(x);
        },
        Id::Channel(x) => {
            let s = encode_spec(id);
            lemma_skip_prefix(channel_prefix(), dec_text(x as int));
            lemma_parse_dec_text(x);
            assert(s.subrange(0, 4)[0] == 'c');
        },
    }
}

proof fn lemma_canonical_round_trip(t: Seq<char>)
    requires
        parse_i64_spec(t) is Some,
        canonical_number(t),
    ensures
        dec_text(parse_i64_spec(t)->0) == t,
{
    if t[0] == '-' {
        let b = t.drop_first();
        lemma_dec_digits_of_value(b);
        lemma_digits_value_positive(b);
        assert(seq!['-'] + b =~= t);
    } else {
        lemma_dec_digits_of_value(t);
        lemma_digit_prefix_nonneg(t);
    }
}

/// Encoding the identity that a well-formed text denotes gives that text back.
pub proof fn lemma_encode_decode(s: Seq<char>)
    requires
        well_formed_id_text(s),
    ensures
        encode_spec(decode_spec(s)->0) == s,
{
    if has_prefix(s, user_prefix()) {
        lemma_canonical_round_trip(s.skip(4));
        assert(user_prefix() + s.skip(4) =~= s);
    } else {
        lemma_canonical_round_trip(s.skip(7));
        assert(channel_prefix() + s.skip(7) =~= s);
    }
}

/// Parses the characters of `cs` from `start` on as a 64-bit signed integer.
fn parse_i64(cs: &Vec<char>, start: usize) -> (r: Option<i64>)
    requires
        start <= cs@.len(),
    ensures
        r matches Some(v) ==> parse_i64_spec(cs@.skip(start as int)) == Some(v as int),
        r is None <==> parse_i64_spec(cs@.skip(start as int)) is None,
{
    let ghost s = cs@.skip(start as int);
    let n = cs.len();
    let mut i = start;
    let mut neg = false;
    assert(s.len() > 0 ==> s[0] == cs@[start as int]);
    if i < n && cs[i] == '-' {
        neg = true;
        i = i + 1;
    } else if i < n && cs[i] == '+' {
        i = i + 1;
    }
    let ghost body = cs@.subrange(i as int, n as int);
    assert(body =~= if s.len() > 0 && (s[0] == '-' || s[0] == '+') {
        s.drop_first()
    } else {
        s
    });
    if i == n {
        return None;
    }
    let body_start = i;
    let mut acc: u64 = 0;
    let limit: u64 = 0x8000_0000_0000_0000;
    while i < n
        invariant
            body_start <= i <= n,
            n == cs@.len(),
            body == cs@.subrange(body_start as int, n as int),
            all_digits(cs@.subrange(body_start as int, i as int)),
            acc as int == digits_value(cs@.subrange(body_start as int, i as int)),
            acc <= limit,
            limit == 0x8000_0000_0000_0000u64,
            s == cs@.skip(start as int),
            neg == (s.len() > 0 && s[0] == '-'),
            body == (if s.len() > 0 && (s[0] == '-' || s[0] == '+') {
                s.drop_first()
            } else {
                s
            }),
        decreases n - i,
    {
        let c = cs[i];
        if !('0' <= c && c <= '9') {
            assert(!all_digits(body)) by {
                assert(body[i - body_start] == c);
            }
            assert(parse_i64_spec(s) is None);
            return None;
        }
        let d: u64 = (c as u32 - 48) as u64;
        let ghost next = cs@.subrange(body_start as int, i + 1);
        assert(next.drop_last() =~= cs@.subrange(body_start as int, i as int));
        assert(all_digits(next));
        if acc > (limit - d) / 10 {
            assert(digits_value(next) > limit);
            proof {
                if all_digits(body) {
                    lemma_digits_value_prefix_le(body, i + 1 - body_start);
                    assert(body.subrange(0, i + 1 - body_start) =~= next);
                }
            }
            assert(parse_i64_spec(s) is None);
            return None;
        }
        acc = acc * 10 + d;
        i = i + 1;
    }
    assert(cs@.subrange(body_start as int, i as int) =~= body);
    if neg {
        if acc == limit {
            Some(i64::MIN)
        } else {
            Some(-(acc as i64))
        }
    } else if acc >= limit {
        None
    } else {
        Some(acc as i64)
    }
}

} // verus!
