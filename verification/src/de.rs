//! Decoding of commands, requests and responses from the wire grammar.
//!
//! Every exec parser is tied to a positional specification parser
//! `sp_*(b, i)` over byte sequences: `Some((v, j))` means a value `v`
//! occupies `b[i..j)` and nothing else can be parsed there.  The
//! specification parsers double as the meaning of on-disk records, so the
//! storage engine's invariants speak the same language as the codec.

use crate::err::KvsError;
use crate::proto::Command;
use crate::proto::CommandView;
use crate::proto::Request;
use crate::proto::RequestView;
use crate::proto::Response;
use crate::proto::ResponseView;
use vstd::prelude::*;
use vstd::utf8::*;

use crate::ser::crlf;
use crate::ser::spec_dec_digits;
use crate::ser::spec_encode_opt_str;
use crate::ser::spec_encode_command;
use crate::ser::spec_encode_request;
use crate::ser::spec_encode_response;
use crate::ser::spec_field;
use crate::ser::spec_encode_str;
use crate::ser::name_key;
use crate::ser::name_message;
use crate::ser::name_result;
use crate::ser::name_value;
use crate::ser::none_mark;
use crate::ser::push_crlf;
use crate::ser::push_name_key;
use crate::ser::push_name_message;
use crate::ser::push_name_result;
use crate::ser::push_name_value;
use crate::ser::push_tag_fail;
use crate::ser::push_tag_get;
use crate::ser::push_tag_rm;
use crate::ser::push_tag_set;
use crate::ser::push_tag_success;
use crate::ser::push_vmark;
use crate::ser::tag_fail;
use crate::ser::tag_get;
use crate::ser::tag_rm;
use crate::ser::tag_set;
use crate::ser::tag_success;
use crate::ser::vmark;

verus! {

broadcast use vstd::utf8::group_utf8_lib;

/// Relies on `core::str::from_utf8`: it succeeds exactly on valid UTF-8
/// input, and the resulting string views the given bytes.
#[verifier::external_body]
pub(crate) fn bytes_to_string(v: &[u8]) -> (r: Option<String>)
    ensures
        match r {
            Some(s) => valid_utf8(v@) && s@ == decode_utf8(v@),
            None => !valid_utf8(v@),
        },
{
    match core::str::from_utf8(v) {
        Ok(s) => Some(s.to_owned()),
        Err(_) => None,
    }
}

/// True when `b` is an ASCII decimal digit.
pub open spec fn is_digit(b: u8) -> bool {
    48 <= b <= 57
}

/// The end of the maximal run of decimal digits that starts at `i`.
pub open spec fn sp_scan_digits(b: Seq<u8>, i: int) -> int
    decreases b.len() - i,
{
    if 0 <= i < b.len() && is_digit(b[i]) {
        sp_scan_digits(b, i + 1)
    } else {
        i
    }
}

/// The value of the decimal digits `b[i..j)`.
pub open spec fn sp_digits_value(b: Seq<u8>, i: int, j: int) -> nat
    decreases j - i,
{
    if i >= j {
        0
    } else {
        sp_digits_value(b, i, j - 1) * 10 + (b[j - 1] - 48) as nat
    }
}

/// Parses one byte equal to `x`.
pub open spec fn sp_byte(b: Seq<u8>, i: int, x: u8) -> Option<int> {
    if 0 <= i < b.len() && b[i] == x {
        Option::Some(i + 1)
    } else {
        Option::None
    }
}

/// Parses a non-empty run of decimal digits into its value.
pub open spec fn sp_number(b: Seq<u8>, i: int) -> Option<(nat, int)> {
    let j = sp_scan_digits(b, i);
    if j == i {
        Option::None
    } else {
        Option::Some((sp_digits_value(b, i, j), j))
    }
}

/// Parses the exact byte sequence `lit`.
pub open spec fn sp_lit(b: Seq<u8>, i: int, lit: Seq<u8>) -> Option<int> {
    if 0 <= i && i + lit.len() <= b.len() && b.subrange(i, i + lit.len() as int) == lit {
        Option::Some(i + lit.len() as int)
    } else {
        Option::None
    }
}

/// Parses a string `+LEN+BYTES`: `LEN` bytes follow the second `+` and
/// must be valid UTF-8.
pub open spec fn sp_str(b: Seq<u8>, i: int) -> Option<(Seq<char>, int)> {
    match sp_byte(b, i, '+' as u8) {
        Option::None => Option::None,
        Option::Some(i1) => match sp_number(b, i1) {
            Option::None => Option::None,
            Option::Some((n, i2)) => match sp_byte(b, i2, '+' as u8) {
                Option::None => Option::None,
                Option::Some(i3) => if i3 + n <= b.len() && valid_utf8(
                    b.subrange(i3, i3 + n),
                ) {
                    Option::Some((decode_utf8(b.subrange(i3, i3 + n)), i3 + n))
                } else {
                    Option::None
                },
            },
        },
    }
}

/// Parses an optional string: the exact bytes `+0+` mean absent,
/// anything else must be a string.
pub open spec fn sp_opt_str(b: Seq<u8>, i: int) -> Option<(Option<Seq<char>>, int)> {
    if sp_lit(b, i, none_mark()) is Some {
        Option::Some((Option::None, i + 3))
    } else {
        match sp_str(b, i) {
            Option::None => Option::None,
            Option::Some((s, j)) => Option::Some((Option::Some(s), j)),
        }
    }
}

/// Parses one field `name:` STRING CR LF.
pub open spec fn sp_field_str(b: Seq<u8>, i: int, name: Seq<u8>) -> Option<(Seq<char>, int)> {
    match sp_lit(b, i, name + seq![':' as u8]) {
        Option::None => Option::None,
        Option::Some(i1) => match sp_str(b, i1) {
            Option::None => Option::None,
            Option::Some((s, i2)) => match sp_lit(b, i2, crlf()) {
                Option::None => Option::None,
                Option::Some(i3) => Option::Some((s, i3)),
            },
        },
    }
}

/// Parses one field `name:` OPTIONAL-STRING CR LF.
pub open spec fn sp_field_opt(b: Seq<u8>, i: int, name: Seq<u8>) -> Option<
    (Option<Seq<char>>, int),
> {
    match sp_lit(b, i, name + seq![':' as u8]) {
        Option::None => Option::None,
        Option::Some(i1) => match sp_opt_str(b, i1) {
            Option::None => Option::None,
            Option::Some((s, i2)) => match sp_lit(b, i2, crlf()) {
                Option::None => Option::None,
                Option::Some(i3) => Option::Some((s, i3)),
            },
        },
    }
}

/// Parses one request: a tagged variant with its fields and the closing
/// CR LF.
pub open spec fn sp_request(b: Seq<u8>, i: int) -> Option<(RequestView, int)> {
    match sp_lit(b, i, tag_set() + vmark()) {
        Option::Some(i1) => match sp_field_str(b, i1, name_key()) {
            Option::None => Option::None,
            Option::Some((key, i2)) => match sp_field_str(b, i2, name_value()) {
                Option::None => Option::None,
                Option::Some((value, i3)) => match sp_lit(b, i3, crlf()) {
                    Option::None => Option::None,
                    Option::Some(i4) => Option::Some((RequestView::Put { key, value }, i4)),
                },
            },
        },
        Option::None => match sp_lit(b, i, tag_get() + vmark()) {
            Option::Some(i1) => match sp_field_str(b, i1, name_key()) {
                Option::None => Option::None,
                Option::Some((key, i2)) => match sp_lit(b, i2, crlf()) {
                    Option::None => Option::None,
                    Option::Some(i3) => Option::Some((RequestView::Get { key }, i3)),
                },
            },
            Option::None => match sp_lit(b, i, tag_rm() + vmark()) {
                Option::None => Option::None,
                Option::Some(i1) => match sp_field_str(b, i1, name_key()) {
                    Option::None => Option::None,
                    Option::Some((key, i2)) => match sp_lit(b, i2, crlf()) {
                        Option::None => Option::None,
                        Option::Some(i3) => Option::Some((RequestView::Rm { key }, i3)),
                    },
                },
            },
        },
    }
}

/// Parses one command, as stored in a log record.
pub open spec fn sp_command(b: Seq<u8>, i: int) -> Option<(CommandView, int)> {
    match sp_lit(b, i, tag_set() + vmark()) {
        Option::Some(i1) => match sp_field_str(b, i1, name_key()) {
            Option::None => Option::None,
            Option::Some((key, i2)) => match sp_field_str(b, i2, name_value()) {
                Option::None => Option::None,
                Option::Some((value, i3)) => match sp_lit(b, i3, crlf()) {
                    Option::None => Option::None,
                    Option::Some(i4) => Option::Some((CommandView::Put { key, value }, i4)),
                },
            },
        },
        Option::None => match sp_lit(b, i, tag_rm() + vmark()) {
            Option::None => Option::None,
            Option::Some(i1) => match sp_field_str(b, i1, name_key()) {
                Option::None => Option::None,
                Option::Some((key, i2)) => match sp_lit(b, i2, crlf()) {
                    Option::None => Option::None,
                    Option::Some(i3) => Option::Some((CommandView::Rm { key }, i3)),
                },
            },
        },
    }
}

/// Parses one response.
pub open spec fn sp_response(b: Seq<u8>, i: int) -> Option<(ResponseView, int)> {
    match sp_lit(b, i, tag_success() + vmark()) {
        Option::Some(i1) => match sp_field_opt(b, i1, name_result()) {
            Option::None => Option::None,
            Option::Some((result, i2)) => match sp_lit(b, i2, crlf()) {
                Option::None => Option::None,
                Option::Some(i3) => Option::Some((ResponseView::Success { result }, i3)),
            },
        },
        Option::None => match sp_lit(b, i, tag_fail() + vmark()) {
            Option::None => Option::None,
            Option::Some(i1) => match sp_field_str(b, i1, name_message()) {
                Option::None => Option::None,
                Option::Some((message, i2)) => match sp_lit(b, i2, crlf()) {
                    Option::None => Option::None,
                    Option::Some(i3) => Option::Some((ResponseView::Fail { message }, i3)),
                },
            },
        },
    }
}

/// Consumes bytes of a borrowed input from a moving position.
pub struct Deserializer<'de> {
    input: &'de [u8],
    pos: usize,
}

impl<'de> Deserializer<'de> {
    /// The input bytes.
    pub closed spec fn data(&self) -> Seq<u8> {
        self.input@
    }

    /// The current position.
    pub closed spec fn at(&self) -> int {
        self.pos as int
    }

    /// Starts reading the given text from its first byte.
    pub fn from_str(input: &'de str) -> (d: Deserializer<'de>)
        ensures
            d.data() == encode_utf8(input@),
            d.at() == 0,
    {
        Deserializer { input: input.as_bytes(), pos: 0 }
    }

    /// Starts reading the given bytes from the given position.
    pub fn from_bytes(input: &'de [u8], pos: usize) -> (d: Deserializer<'de>)
        ensures
            d.data() == input@,
            d.at() == pos,
    {
        Deserializer { input, pos }
    }

    /// True when the whole input has been consumed.
    pub fn is_done(&self) -> (r: bool)
        ensures
            r == (self.at() == self.data().len()),
    {
        self.pos == self.input.len()
    }

    /// The current position, as a count of consumed bytes.
    pub fn position(&self) -> (r: usize)
        ensures
            r == self.at(),
    {
        self.pos
    }

    /// The byte at the current position, without consuming it.
    fn peek_char(&self) -> (r: Result<u8, KvsError>)
        ensures
            match r {
                Ok(c) => 0 <= self.at() < self.data().len() && c == self.data()[self.at()],
                Err(e) => self.at() >= self.data().len() && e is Deserialize,
            },
    {
        if self.pos < self.input.len() {
            Ok(self.input[self.pos])
        } else {
            Err(KvsError::Deserialize(String::from_str("EOF")))
        }
    }

    /// The byte at the current position, consuming it.
    fn next_char(&mut self) -> (r: Result<u8, KvsError>)
        ensures
            final(self).data() == old(self).data(),
            match r {
                Ok(c) => {
                    &&& 0 <= old(self).at() < old(self).data().len()
                    &&& c == old(self).data()[old(self).at()]
                    &&& final(self).at() == old(self).at() + 1
                },
                Err(e) => {
                    &&& old(self).at() >= old(self).data().len()
                    &&& final(self).at() == old(self).at()
                    &&& e is Deserialize
                },
            },
    {
        if self.pos < self.input.len() {
            let c = self.input[self.pos];
            self.pos = self.pos + 1;
            Ok(c)
        } else {
            Err(KvsError::Deserialize(String::from_str("EOF")))
        }
    }

    /// Consumes one byte that must equal `x`.
    fn expect_byte(&mut self, x: u8) -> (r: Result<(), KvsError>)
        ensures
            final(self).data() == old(self).data(),
            match r {
                Ok(_) => sp_byte(old(self).data(), old(self).at(), x) == Option::Some(
                    final(self).at(),
                ),
                Err(e) => sp_byte(old(self).data(), old(self).at(), x) is None && e
                    is Deserialize,
            },
    {
        match self.next_char() {
            Ok(c) => {
                if c == x {
                    Ok(())
                } else {
                    Err(KvsError::Deserialize(String::from_str("unexpected byte")))
                }
            },
            Err(e) => Err(e),
        }
    }

    /// Consumes the exact bytes of `lit`.
    fn expect_lit(&mut self, lit: &Vec<u8>) -> (r: Result<(), KvsError>)
        ensures
            final(self).data() == old(self).data(),
            match r {
                Ok(_) => sp_lit(old(self).data(), old(self).at(), lit@) == Option::Some(
                    final(self).at(),
                ),
                Err(e) => sp_lit(old(self).data(), old(self).at(), lit@) is None && e
                    is Deserialize && final(self).at() == old(self).at(),
            },
    {
        let n = lit.len();
        if self.pos > self.input.len() || n > self.input.len() - self.pos {
            return Err(KvsError::Deserialize(String::from_str("EOF")));
        }
        let mut k: usize = 0;
        while k < n
            invariant
                0 <= k <= n,
                n == lit@.len(),
                self.pos + n <= self.input@.len(),
                self.input@.len() <= usize::MAX,
                forall|t: int| 0 <= t < k ==> self.input@[self.pos + t] == lit@[t],
            decreases n - k,
        {
            if self.input[self.pos + k] != lit[k] {
                proof {
                    let b = self.input@;
                    let i = self.pos as int;
                    if i + lit@.len() <= b.len() {
                        assert(b.subrange(i, i + lit@.len() as int)[k as int] == b[i + k]);
                    }
                }
                return Err(KvsError::Deserialize(String::from_str("unexpected bytes")));
            }
            k = k + 1;
        }
        proof {
            let b = self.input@;
            let i = self.pos as int;
            assert(b.subrange(i, i + lit@.len() as int) =~= lit@);
        }
        self.pos = self.pos + n;
        Ok(())
    }
}

/// The digit scan stays within bounds, covers only digits, and stops at a
/// non-digit or at the end.
pub proof fn lemma_scan_digits_props(b: Seq<u8>, i: int)
    requires
        0 <= i <= b.len(),
    ensures
        i <= sp_scan_digits(b, i) <= b.len(),
        forall|t: int| i <= t < sp_scan_digits(b, i) ==> is_digit(#[trigger] b[t]),
        sp_scan_digits(b, i) < b.len() ==> !is_digit(b[sp_scan_digits(b, i)]),
    decreases b.len() - i,
{
    if i < b.len() && is_digit(b[i]) {
        lemma_scan_digits_props(b, i + 1);
    }
}

/// The value of a digit run does not shrink as the run grows.
pub proof fn lemma_digits_value_mono(b: Seq<u8>, i: int, j1: int, j2: int)
    requires
        i <= j1 <= j2,
    ensures
        sp_digits_value(b, i, j2) >= sp_digits_value(b, i, j1),
    decreases j2 - j1,
{
    if j2 > j1 {
        lemma_digits_value_mono(b, i, j1, j2 - 1);
        assert(sp_digits_value(b, i, j2 - 1) * 10 >= sp_digits_value(b, i, j2 - 1)) by (
        nonlinear_arith);
    }
}

/// The bytes `v[i..j)`, copied out.
pub(crate) fn subrange_vec(v: &[u8], i: usize, j: usize) -> (r: Vec<u8>)
    requires
        i <= j <= v@.len(),
    ensures
        r@ == v@.subrange(i as int, j as int),
{
    let mut r: Vec<u8> = Vec::new();
    let mut k: usize = i;
    while k < j
        invariant
            i <= k <= j <= v@.len(),
            r@ == v@.subrange(i as int, k as int),
        decreases j - k,
    {
        r.push(v[k]);
        proof {
            assert(r@ =~= v@.subrange(i as int, k + 1));
        }
        k = k + 1;
    }
    r
}

impl<'de> Deserializer<'de> {
    /// Consumes a non-empty run of decimal digits as a number.  A run
    /// whose value does not fit in `usize` is an error.
    fn parse_number(&mut self) -> (r: Result<usize, KvsError>)
        ensures
            final(self).data() == old(self).data(),
            match r {
                Ok(n) => sp_number(old(self).data(), old(self).at()) == Option::Some(
                    (n as nat, final(self).at()),
                ),
                Err(e) => {
                    &&& e is Deserialize
                    &&& match sp_number(old(self).data(), old(self).at()) {
                        Option::None => true,
                        Option::Some((v, j)) => v > usize::MAX,
                    }
                },
            },
    {
        let len = self.input.len();
        let ghost b = self.input@;
        let ghost start = self.pos as int;
        if self.pos >= len {
            return Err(KvsError::Deserialize(String::from_str("expected integer")));
        }
        let c = self.input[self.pos];
        if !(48 <= c && c <= 57) {
            return Err(KvsError::Deserialize(String::from_str("expected integer")));
        }
        let mut val: usize = 0;
        while self.pos < len && 48 <= self.input[self.pos] && self.input[self.pos] <= 57
            invariant
                self.input@ == b,
                b == old(self).data(),
                start == old(self).at(),
                len == b.len(),
                0 <= start <= self.pos <= len,
                sp_scan_digits(b, start) == sp_scan_digits(b, self.pos as int),
                val as nat == sp_digits_value(b, start, self.pos as int),
            decreases len - self.pos,
        {
            let d = self.input[self.pos] - 48;
            if val > (usize::MAX - (d as usize)) / 10 {
                proof {
                    lemma_scan_digits_props(b, start);
                    lemma_scan_digits_props(b, self.pos + 1);
                    let j = sp_scan_digits(b, start);
                    assert(is_digit(b[self.pos as int]));
                    assert(sp_scan_digits(b, self.pos as int) == sp_scan_digits(b, self.pos + 1));
                    assert(j > self.pos as int);
                    lemma_digits_value_mono(b, start, self.pos + 1, j);
                    assert(sp_digits_value(b, start, self.pos + 1) == val * 10 + d);
                    assert(val * 10 + d > usize::MAX) by (nonlinear_arith)
                        requires
                            val > (usize::MAX - (d as usize)) / 10,
                            0 <= d < 10,
                            0 <= val,
                    ;
                }
                return Err(KvsError::Deserialize(String::from_str("Integer Overflow")));
            }
            val = val * 10 + (d as usize);
            self.pos = self.pos + 1;
        }
        proof {
            assert(sp_scan_digits(b, self.pos as int) == self.pos as int);
            lemma_scan_digits_props(b, start + 1);
            assert(sp_scan_digits(b, start) == sp_scan_digits(b, start + 1));
            assert(sp_scan_digits(b, start) > start);
        }
        Ok(val)
    }

    /// Consumes a string `+LEN+BYTES`.
    fn parse_string(&mut self) -> (r: Result<String, KvsError>)
        ensures
            final(self).data() == old(self).data(),
            match r {
                Ok(s) => sp_str(old(self).data(), old(self).at()) == Option::Some(
                    (s@, final(self).at()),
                ),
                Err(e) => sp_str(old(self).data(), old(self).at()) is None && e is Deserialize,
            },
    {
        let ghost b = self.input@;
        let ghost start = self.pos as int;
        match self.expect_byte('+' as u8) {
            Err(e) => {
                return Err(e);
            },
            Ok(_) => {},
        }
        let len = self.input.len();
        let n = match self.parse_number() {
            Err(e) => {
                return Err(e);
            },
            Ok(n) => n,
        };
        match self.expect_byte('+' as u8) {
            Err(e) => {
                return Err(e);
            },
            Ok(_) => {},
        }
        if self.pos > len || n > len - self.pos {
            return Err(KvsError::Deserialize(String::from_str("expected string")));
        }
        let raw = subrange_vec(self.input, self.pos, self.pos + n);
        match bytes_to_string(raw.as_slice()) {
            None => Err(KvsError::Deserialize(String::from_str("expected string"))),
            Some(s) => {
                self.pos = self.pos + n;
                Ok(s)
            },
        }
    }

    /// Consumes an optional string: the exact bytes `+0+` are absence.
    fn parse_opt_string(&mut self) -> (r: Result<Option<String>, KvsError>)
        ensures
            final(self).data() == old(self).data(),
            match r {
                Ok(o) => sp_opt_str(old(self).data(), old(self).at()) == Option::Some(
                    (
                        match o {
                            Option::Some(s) => Option::Some(s@),
                            Option::None => Option::None,
                        },
                        final(self).at(),
                    ),
                ),
                Err(e) => sp_opt_str(old(self).data(), old(self).at()) is None && e
                    is Deserialize,
            },
    {
        let ghost b = self.input@;
        let ghost start = self.pos as int;
        let len = self.input.len();
        if self.pos <= len && len - self.pos >= 3 {
            if self.input[self.pos] == '+' as u8 && self.input[self.pos + 1] == '0' as u8
                && self.input[self.pos + 2] == '+' as u8 {
                proof {
                    assert(b.subrange(start, start + 3) =~= none_mark());
                }
                self.pos = self.pos + 3;
                return Ok(None);
            }
        }
        proof {
            if start + 3 <= b.len() {
                let sub = b.subrange(start, start + 3);
                assert(sub[0] == b[start] && sub[1] == b[start + 1] && sub[2] == b[start + 2]);
                assert(sub != none_mark());
            }
            assert(sp_lit(b, start, none_mark()) is None);
        }
        match self.parse_string() {
            Ok(s) => Ok(Some(s)),
            Err(e) => Err(e),
        }
    }
}

/// A literal fails to parse where one of its bytes differs from the input.
proof fn lemma_sp_lit_mismatch(b: Seq<u8>, i: int, lit: Seq<u8>, k: int)
    requires
        0 <= k < lit.len(),
        0 <= i,
        i + lit.len() <= b.len() ==> b[i + k] != lit[k],
    ensures
        sp_lit(b, i, lit) is None,
{
    if i + lit.len() <= b.len() {
        assert(b.subrange(i, i + lit.len() as int)[k] == b[i + k]);
    }
}

/// One field whose payload is a string, given the bytes `name:` to match.
fn parse_field_str_impl(de: &mut Deserializer<'_>, lit: &Vec<u8>, Ghost(name): Ghost<Seq<u8>>) -> (r:
    Result<String, KvsError>)
    requires
        lit@ == name + seq![':' as u8],
    ensures
        final(de).data() == old(de).data(),
        match r {
            Ok(s) => sp_field_str(old(de).data(), old(de).at(), name) == Option::Some(
                (s@, final(de).at()),
            ),
            Err(e) => sp_field_str(old(de).data(), old(de).at(), name) is None && e
                is Deserialize,
        },
{
    match de.expect_lit(lit) {
        Err(e) => {
            return Err(e);
        },
        Ok(_) => {},
    }
    let s = match de.parse_string() {
        Err(e) => {
            return Err(e);
        },
        Ok(s) => s,
    };
    let mut c: Vec<u8> = Vec::new();
    push_crlf(&mut c);
    proof {
        assert(c@ =~= crlf());
    }
    match de.expect_lit(&c) {
        Err(e) => Err(e),
        Ok(_) => Ok(s),
    }
}

/// One field whose payload is an optional string.
fn parse_field_opt_impl(de: &mut Deserializer<'_>, lit: &Vec<u8>, Ghost(name): Ghost<Seq<u8>>) -> (r:
    Result<Option<String>, KvsError>)
    requires
        lit@ == name + seq![':' as u8],
    ensures
        final(de).data() == old(de).data(),
        match r {
            Ok(o) => sp_field_opt(old(de).data(), old(de).at(), name) == Option::Some(
                (
                    match o {
                        Option::Some(s) => Option::Some(s@),
                        Option::None => Option::None,
                    },
                    final(de).at(),
                ),
            ),
            Err(e) => sp_field_opt(old(de).data(), old(de).at(), name) is None && e
                is Deserialize,
        },
{
    match de.expect_lit(lit) {
        Err(e) => {
            return Err(e);
        },
        Ok(_) => {},
    }
    let o = match de.parse_opt_string() {
        Err(e) => {
            return Err(e);
        },
        Ok(o) => o,
    };
    let mut c: Vec<u8> = Vec::new();
    push_crlf(&mut c);
    proof {
        assert(c@ =~= crlf());
    }
    match de.expect_lit(&c) {
        Err(e) => Err(e),
        Ok(_) => Ok(o),
    }
}

/// A value that can be read back from the wire grammar.
pub trait Decode: View + Sized {
    /// The positional parser for this type.
    spec fn sp_parse(b: Seq<u8>, i: int) -> Option<(Self::V, int)>;

    /// Consumes exactly one value from the input.
    fn deserialize(de: &mut Deserializer<'_>) -> (r: Result<Self, KvsError>)
        ensures
            final(de).data() == old(de).data(),
            match r {
                Ok(v) => Self::sp_parse(old(de).data(), old(de).at()) == Option::Some(
                    (v@, final(de).at()),
                ),
                Err(e) => Self::sp_parse(old(de).data(), old(de).at()) is None && e
                    is Deserialize,
            },
    ;
}

impl Decode for Request {
    open spec fn sp_parse(b: Seq<u8>, i: int) -> Option<(RequestView, int)> {
        sp_request(b, i)
    }

    fn deserialize(de: &mut Deserializer<'_>) -> (r: Result<Request, KvsError>) {
        let ghost b = de.data();
        let ghost i = de.at();
        let mut l_key: Vec<u8> = Vec::new();
        push_name_key(&mut l_key);
        l_key.push(':' as u8);
        proof {
            assert(l_key@ =~= name_key() + seq![':' as u8]);
            assert((tag_set() + vmark())[0] == 'S' as u8);
            assert((tag_get() + vmark())[0] == 'G' as u8);
            assert((tag_rm() + vmark())[0] == 'R' as u8);
        }
        let c = match de.peek_char() {
            Ok(c) => c,
            Err(e) => {
                return Err(e);
            },
        };
        if c == 'S' as u8 {
            proof {
                lemma_sp_lit_mismatch(b, i, tag_get() + vmark(), 0);
                lemma_sp_lit_mismatch(b, i, tag_rm() + vmark(), 0);
            }
            let mut l: Vec<u8> = Vec::new();
            push_tag_set(&mut l);
            push_vmark(&mut l);
            proof {
                assert(l@ =~= tag_set() + vmark());
            }
            match de.expect_lit(&l) {
                Err(e) => {
                    return Err(e);
                },
                Ok(_) => {},
            }
            let key = match parse_field_str_impl(de, &l_key, Ghost(name_key())) {
                Err(e) => {
                    return Err(e);
                },
                Ok(s) => s,
            };
            let mut l_value: Vec<u8> = Vec::new();
            push_name_value(&mut l_value);
            l_value.push(':' as u8);
            proof {
                assert(l_value@ =~= name_value() + seq![':' as u8]);
            }
            let value = match parse_field_str_impl(de, &l_value, Ghost(name_value())) {
                Err(e) => {
                    return Err(e);
                },
                Ok(s) => s,
            };
            let mut cl: Vec<u8> = Vec::new();
            push_crlf(&mut cl);
            proof {
                assert(cl@ =~= crlf());
            }
            match de.expect_lit(&cl) {
                Err(e) => Err(e),
                Ok(_) => Ok(Request::Put { key, value }),
            }
        } else if c == 'G' as u8 {
            proof {
                lemma_sp_lit_mismatch(b, i, tag_set() + vmark(), 0);
                lemma_sp_lit_mismatch(b, i, tag_rm() + vmark(), 0);
            }
            let mut l: Vec<u8> = Vec::new();
            push_tag_get(&mut l);
            push_vmark(&mut l);
            proof {
                assert(l@ =~= tag_get() + vmark());
            }
            match de.expect_lit(&l) {
                Err(e) => {
                    return Err(e);
                },
                Ok(_) => {},
            }
            let key = match parse_field_str_impl(de, &l_key, Ghost(name_key())) {
                Err(e) => {
                    return Err(e);
                },
                Ok(s) => s,
            };
            let mut cl: Vec<u8> = Vec::new();
            push_crlf(&mut cl);
            proof {
                assert(cl@ =~= crlf());
            }
            match de.expect_lit(&cl) {
                Err(e) => Err(e),
                Ok(_) => Ok(Request::Get { key }),
            }
        } else if c == 'R' as u8 {
            proof {
                lemma_sp_lit_mismatch(b, i, tag_set() + vmark(), 0);
                lemma_sp_lit_mismatch(b, i, tag_get() + vmark(), 0);
            }
            let mut l: Vec<u8> = Vec::new();
            push_tag_rm(&mut l);
            push_vmark(&mut l);
            proof {
                assert(l@ =~= tag_rm() + vmark());
            }
            match de.expect_lit(&l) {
                Err(e) => {
                    return Err(e);
                },
                Ok(_) => {},
            }
            let key = match parse_field_str_impl(de, &l_key, Ghost(name_key())) {
                Err(e) => {
                    return Err(e);
                },
                Ok(s) => s,
            };
            let mut cl: Vec<u8> = Vec::new();
            push_crlf(&mut cl);
            proof {
                assert(cl@ =~= crlf());
            }
            match de.expect_lit(&cl) {
                Err(e) => Err(e),
                Ok(_) => Ok(Request::Rm { key }),
            }
        } else {
            proof {
                lemma_sp_lit_mismatch(b, i, tag_set() + vmark(), 0);
                lemma_sp_lit_mismatch(b, i, tag_get() + vmark(), 0);
                lemma_sp_lit_mismatch(b, i, tag_rm() + vmark(), 0);
            }
            Err(KvsError::Deserialize(String::from_str("expected variant tag")))
        }
    }
}

impl Decode for Command {
    open spec fn sp_parse(b: Seq<u8>, i: int) -> Option<(CommandView, int)> {
        sp_command(b, i)
    }

    fn deserialize(de: &mut Deserializer<'_>) -> (r: Result<Command, KvsError>) {
        let ghost b = de.data();
        let ghost i = de.at();
        let mut l_key: Vec<u8> = Vec::new();
        push_name_key(&mut l_key);
        l_key.push(':' as u8);
        proof {
            assert(l_key@ =~= name_key() + seq![':' as u8]);
            assert((tag_set() + vmark())[0] == 'S' as u8);
            assert((tag_rm() + vmark())[0] == 'R' as u8);
        }
        let c = match de.peek_char() {
            Ok(c) => c,
            Err(e) => {
                return Err(e);
            },
        };
        if c == 'S' as u8 {
            proof {
                lemma_sp_lit_mismatch(b, i, tag_rm() + vmark(), 0);
            }
            let mut l: Vec<u8> = Vec::new();
            push_tag_set(&mut l);
            push_vmark(&mut l);
            proof {
                assert(l@ =~= tag_set() + vmark());
            }
            match de.expect_lit(&l) {
                Err(e) => {
                    return Err(e);
                },
                Ok(_) => {},
            }
            let key = match parse_field_str_impl(de, &l_key, Ghost(name_key())) {
                Err(e) => {
                    return Err(e);
                },
                Ok(s) => s,
            };
            let mut l_value: Vec<u8> = Vec::new();
            push_name_value(&mut l_value);
            l_value.push(':' as u8);
            proof {
                assert(l_value@ =~= name_value() + seq![':' as u8]);
            }
            let value = match parse_field_str_impl(de, &l_value, Ghost(name_value())) {
                Err(e) => {
                    return Err(e);
                },
                Ok(s) => s,
            };
            let mut cl: Vec<u8> = Vec::new();
            push_crlf(&mut cl);
            proof {
                assert(cl@ =~= crlf());
            }
            match de.expect_lit(&cl) {
                Err(e) => Err(e),
                Ok(_) => Ok(Command::Put { key, value }),
            }
        } else if c == 'R' as u8 {
            proof {
                lemma_sp_lit_mismatch(b, i, tag_set() + vmark(), 0);
            }
            let mut l: Vec<u8> = Vec::new();
            push_tag_rm(&mut l);
            push_vmark(&mut l);
            proof {
                assert(l@ =~= tag_rm() + vmark());
            }
            match de.expect_lit(&l) {
                Err(e) => {
                    return Err(e);
                },
                Ok(_) => {},
            }
            let key = match parse_field_str_impl(de, &l_key, Ghost(name_key())) {
                Err(e) => {
                    return Err(e);
                },
                Ok(s) => s,
            };
            let mut cl: Vec<u8> = Vec::new();
            push_crlf(&mut cl);
            proof {
                assert(cl@ =~= crlf());
            }
            match de.expect_lit(&cl) {
                Err(e) => Err(e),
                Ok(_) => Ok(Command::Rm { key }),
            }
        } else {
            proof {
                lemma_sp_lit_mismatch(b, i, tag_set() + vmark(), 0);
                lemma_sp_lit_mismatch(b, i, tag_rm() + vmark(), 0);
            }
            Err(KvsError::Deserialize(String::from_str("expected variant tag")))
        }
    }
}

impl Decode for Response {
    open spec fn sp_parse(b: Seq<u8>, i: int) -> Option<(ResponseView, int)> {
        sp_response(b, i)
    }

    fn deserialize(de: &mut Deserializer<'_>) -> (r: Result<Response, KvsError>) {
        let ghost b = de.data();
        let ghost i = de.at();
        proof {
            assert((tag_success() + vmark())[0] == 'S' as u8);
            assert((tag_fail() + vmark())[0] == 'F' as u8);
        }
        let c = match de.peek_char() {
            Ok(c) => c,
            Err(e) => {
                return Err(e);
            },
        };
        if c == 'S' as u8 {
            proof {
                lemma_sp_lit_mismatch(b, i, tag_fail() + vmark(), 0);
            }
            let mut l: Vec<u8> = Vec::new();
            push_tag_success(&mut l);
            push_vmark(&mut l);
            proof {
                assert(l@ =~= tag_success() + vmark());
            }
            match de.expect_lit(&l) {
                Err(e) => {
                    return Err(e);
                },
                Ok(_) => {},
            }
            let mut l_result: Vec<u8> = Vec::new();
            push_name_result(&mut l_result);
            l_result.push(':' as u8);
            proof {
                assert(l_result@ =~= name_result() + seq![':' as u8]);
            }
            let result = match parse_field_opt_impl(de, &l_result, Ghost(name_result())) {
                Err(e) => {
                    return Err(e);
                },
                Ok(o) => o,
            };
            let mut cl: Vec<u8> = Vec::new();
            push_crlf(&mut cl);
            proof {
                assert(cl@ =~= crlf());
            }
            match de.expect_lit(&cl) {
                Err(e) => Err(e),
                Ok(_) => Ok(Response::Success { result }),
            }
        } else if c == 'F' as u8 {
            proof {
                lemma_sp_lit_mismatch(b, i, tag_success() + vmark(), 0);
            }
            let mut l: Vec<u8> = Vec::new();
            push_tag_fail(&mut l);
            push_vmark(&mut l);
            proof {
                assert(l@ =~= tag_fail() + vmark());
            }
            match de.expect_lit(&l) {
                Err(e) => {
                    return Err(e);
                },
                Ok(_) => {},
            }
            let mut l_message: Vec<u8> = Vec::new();
            push_name_message(&mut l_message);
            l_message.push(':' as u8);
            proof {
                assert(l_message@ =~= name_message() + seq![':' as u8]);
            }
            let message = match parse_field_str_impl(de, &l_message, Ghost(name_message())) {
                Err(e) => {
                    return Err(e);
                },
                Ok(s) => s,
            };
            let mut cl: Vec<u8> = Vec::new();
            push_crlf(&mut cl);
            proof {
                assert(cl@ =~= crlf());
            }
            match de.expect_lit(&cl) {
                Err(e) => Err(e),
                Ok(_) => Ok(Response::Fail { message }),
            }
        } else {
            proof {
                lemma_sp_lit_mismatch(b, i, tag_success() + vmark(), 0);
                lemma_sp_lit_mismatch(b, i, tag_fail() + vmark(), 0);
            }
            Err(KvsError::Deserialize(String::from_str("expected variant tag")))
        }
    }
}

/// Decodes one value from the text of the wire grammar; bytes beyond the
/// value are an error.
pub fn from_str<T: Decode>(s: &str) -> (r: Result<T, KvsError>)
    ensures
        match r {
            Ok(v) => T::sp_parse(encode_utf8(s@), 0) matches Option::Some((w, j)) && w == v@ && j
                == encode_utf8(s@).len(),
            Err(e) => e is Deserialize && match T::sp_parse(encode_utf8(s@), 0) {
                Option::Some((w, j)) => j != encode_utf8(s@).len(),
                Option::None => true,
            },
        },
{
    let mut de = Deserializer::from_str(s);
    let v = match T::deserialize(&mut de) {
        Err(e) => {
            return Err(e);
        },
        Ok(v) => v,
    };
    if de.is_done() {
        Ok(v)
    } else {
        Err(KvsError::Deserialize(String::from_str("Trailing Characters")))
    }
}

/// A run of digits, delimited on the right, scans to its end.
proof fn lemma_scan_digits_run(b: Seq<u8>, i: int, j: int)
    requires
        0 <= i <= j <= b.len(),
        forall|t: int| i <= t < j ==> is_digit(#[trigger] b[t]),
        j == b.len() || !is_digit(b[j]),
    ensures
        sp_scan_digits(b, i) == j,
    decreases j - i,
{
    if i < j {
        lemma_scan_digits_run(b, i + 1, j);
    }
}

/// A subrange of a matched region equals the same subrange of the
/// matched bytes.
proof fn lemma_subrange_slide(b: Seq<u8>, i: int, full: Seq<u8>, a: int, c: int)
    requires
        0 <= i,
        i + full.len() <= b.len(),
        b.subrange(i, i + full.len() as int) == full,
        0 <= a <= c <= full.len(),
    ensures
        b.subrange(i + a, i + c) == full.subrange(a, c),
{
    assert forall|k: int| 0 <= k < c - a implies b.subrange(i + a, i + c)[k] == full.subrange(
        a,
        c,
    )[k] by {
        assert(b.subrange(i, i + full.len() as int)[a + k] == b[i + a + k]);
    }
    assert(b.subrange(i + a, i + c) =~= full.subrange(a, c));
}

/// The digits written for `n`, read back, have the value `n`.
proof fn lemma_digits_value_of_dec(b: Seq<u8>, i: int, n: nat)
    requires
        0 <= i,
        i + spec_dec_digits(n).len() <= b.len(),
        b.subrange(i, i + spec_dec_digits(n).len() as int) == spec_dec_digits(n),
    ensures
        sp_digits_value(b, i, i + spec_dec_digits(n).len() as int) == n,
    decreases n,
{
    let d = spec_dec_digits(n);
    let l = d.len() as int;
    assert(b.subrange(i, i + l)[l - 1] == b[i + l - 1]);
    if n < 10 {
        assert(b[i] == 48 + n);
        assert(sp_digits_value(b, i, i) == 0);
        assert(sp_digits_value(b, i, i + 1) == (b[i] - 48) as nat);
    } else {
        let dq = spec_dec_digits(n / 10);
        lemma_subrange_slide(b, i, d, 0, l - 1);
        assert(d.subrange(0, l - 1) =~= dq);
        lemma_digits_value_of_dec(b, i, n / 10);
        assert(b[i + l - 1] == d[l - 1]);
        assert(d[l - 1] == 48 + n % 10);
        assert(sp_digits_value(b, i, i + l) == sp_digits_value(b, i, i + l - 1) * 10 + (b[i + l
            - 1] - 48) as nat);
        assert((n / 10) * 10 + n % 10 == n) by (nonlinear_arith);
    }
}

/// Reading a number where the digits of `n` were written, followed by a
/// non-digit, yields `n`.
proof fn lemma_sp_number_of_dec(b: Seq<u8>, i: int, n: nat)
    requires
        0 <= i,
        i + spec_dec_digits(n).len() < b.len(),
        b.subrange(i, i + spec_dec_digits(n).len() as int) == spec_dec_digits(n),
        !is_digit(b[i + spec_dec_digits(n).len()]),
    ensures
        sp_number(b, i) == Option::Some((n, i + spec_dec_digits(n).len() as int)),
{
    let d = spec_dec_digits(n);
    let l = d.len() as int;
    crate::ser::lemma_dec_digits_ascii(n);
    assert forall|t: int| i <= t < i + l implies is_digit(#[trigger] b[t]) by {
        assert(b.subrange(i, i + l)[t - i] == b[t]);
        assert(d[t - i] >= 48 && d[t - i] <= 57);
    }
    lemma_scan_digits_run(b, i, i + l);
    lemma_digits_value_of_dec(b, i, n);
}

/// Reading a string where `spec_encode_str(s)` was written yields `s`.
proof fn lemma_sp_str_of_encode(b: Seq<u8>, i: int, s: Seq<char>)
    requires
        0 <= i,
        i + spec_encode_str(s).len() <= b.len(),
        b.subrange(i, i + spec_encode_str(s).len() as int) == spec_encode_str(s),
    ensures
        sp_str(b, i) == Option::Some((s, i + spec_encode_str(s).len() as int)),
{
    let e = encode_utf8(s);
    let d = spec_dec_digits(e.len());
    let full = spec_encode_str(s);
    let l = full.len() as int;
    let dl = d.len() as int;
    assert(full == seq!['+' as u8] + d + seq!['+' as u8] + e);
    assert(b.subrange(i, i + l)[0] == b[i]);
    assert(full[0] == '+' as u8);
    assert(sp_byte(b, i, '+' as u8) == Option::Some(i + 1));
    lemma_subrange_slide(b, i, full, 1, 1 + dl);
    assert(full.subrange(1, 1 + dl) =~= d);
    assert(b.subrange(i, i + l)[1 + dl] == b[i + 1 + dl]);
    assert(full[1 + dl] == '+' as u8);
    crate::ser::lemma_dec_digits_ascii(e.len());
    lemma_sp_number_of_dec(b, i + 1, e.len());
    assert(sp_number(b, i + 1) == Option::Some((e.len(), i + 1 + dl)));
    assert(sp_byte(b, i + 1 + dl, '+' as u8) == Option::Some(i + 2 + dl));
    lemma_subrange_slide(b, i, full, 2 + dl, l);
    assert(full.subrange(2 + dl, l) =~= e);
    assert(b.subrange(i + 2 + dl, i + l) == e);
    encode_utf8_valid_utf8(s);
    encode_utf8_decode_utf8(s);
    assert(i + 2 + dl + e.len() == i + l);
}

/// Reading one string field where its encoding was written yields the
/// string.
proof fn lemma_sp_field_str_of_encode(b: Seq<u8>, i: int, name: Seq<u8>, s: Seq<char>)
    requires
        0 <= i,
        i + spec_field(name, spec_encode_str(s)).len() <= b.len(),
        b.subrange(i, i + spec_field(name, spec_encode_str(s)).len() as int) == spec_field(
            name,
            spec_encode_str(s),
        ),
    ensures
        sp_field_str(b, i, name) == Option::Some(
            (s, i + spec_field(name, spec_encode_str(s)).len() as int),
        ),
{
    let payload = spec_encode_str(s);
    let full = spec_field(name, payload);
    let nl = name.len() as int + 1;
    let pl = payload.len() as int;
    let l = full.len() as int;
    lemma_subrange_slide(b, i, full, 0, nl);
    assert(full.subrange(0, nl) =~= name + seq![':' as u8]);
    assert(sp_lit(b, i, name + seq![':' as u8]) == Option::Some(i + nl));
    lemma_subrange_slide(b, i, full, nl, nl + pl);
    assert(full.subrange(nl, nl + pl) =~= payload);
    lemma_sp_str_of_encode(b, i + nl, s);
    lemma_subrange_slide(b, i, full, nl + pl, l);
    assert(full.subrange(nl + pl, l) =~= crlf());
    assert(sp_lit(b, i + nl + pl, crlf()) == Option::Some(i + l));
}

/// The digits of a positive number do not start with `0`.
proof fn lemma_dec_leading_nonzero(n: nat)
    requires
        n >= 1,
    ensures
        spec_dec_digits(n)[0] != 48,
    decreases n,
{
    if n >= 10 {
        lemma_dec_leading_nonzero(n / 10);
    }
}

/// The encoding of a non-empty character sequence is non-empty.
proof fn lemma_encode_utf8_nonempty(s: Seq<char>)
    requires
        s.len() > 0,
    ensures
        encode_utf8(s).len() > 0,
{
    assert(encode_scalar(s[0] as u32).len() >= 1);
}

/// Reading one optional-string field where its encoding was written
/// yields the optional string, provided a present string is non-empty.
proof fn lemma_sp_field_opt_of_encode(b: Seq<u8>, i: int, name: Seq<u8>, o: Option<Seq<char>>)
    requires
        0 <= i,
        i + spec_field(name, spec_encode_opt_str(o)).len() <= b.len(),
        b.subrange(i, i + spec_field(name, spec_encode_opt_str(o)).len() as int) == spec_field(
            name,
            spec_encode_opt_str(o),
        ),
        o matches Option::Some(s) ==> s.len() > 0,
    ensures
        sp_field_opt(b, i, name) == Option::Some(
            (o, i + spec_field(name, spec_encode_opt_str(o)).len() as int),
        ),
{
    let payload = spec_encode_opt_str(o);
    let full = spec_field(name, payload);
    let nl = name.len() as int + 1;
    let pl = payload.len() as int;
    let l = full.len() as int;
    lemma_subrange_slide(b, i, full, 0, nl);
    assert(full.subrange(0, nl) =~= name + seq![':' as u8]);
    assert(sp_lit(b, i, name + seq![':' as u8]) == Option::Some(i + nl));
    lemma_subrange_slide(b, i, full, nl, nl + pl);
    match o {
        Option::None => {
            assert(full.subrange(nl, nl + pl) =~= none_mark());
            assert(sp_lit(b, i + nl, none_mark()) == Option::Some(i + nl + 3));
            assert(sp_opt_str(b, i + nl) == Option::Some(
                (Option::None::<Seq<char>>, i + nl + 3),
            ));
        },
        Option::Some(s) => {
            assert(full.subrange(nl, nl + pl) =~= spec_encode_str(s));
            lemma_sp_str_of_encode(b, i + nl, s);
            lemma_encode_utf8_nonempty(s);
            lemma_dec_leading_nonzero(encode_utf8(s).len());
            crate::ser::lemma_dec_digits_ascii(encode_utf8(s).len());
            if i + nl + 3 <= b.len() {
                assert(b.subrange(i + nl, i + nl + pl)[1] == b[i + nl + 1]);
                assert(spec_encode_str(s)[1] == spec_dec_digits(encode_utf8(s).len())[0]);
                assert(b[i + nl + 1] != '0' as u8);
                lemma_sp_lit_mismatch(b, i + nl, none_mark(), 1);
            }
            assert(sp_lit(b, i + nl, none_mark()) is None);
            assert(sp_opt_str(b, i + nl) == Option::Some((Option::Some(s), i + nl + pl)));
        },
    }
    lemma_subrange_slide(b, i, full, nl + pl, l);
    assert(full.subrange(nl + pl, l) =~= crlf());
    assert(sp_lit(b, i + nl + pl, crlf()) == Option::Some(i + l));
}

/// The pieces of a one-string-field variant, where its encoding was
/// written.
proof fn lemma_variant_parts1(b: Seq<u8>, i: int, tag: Seq<u8>, name: Seq<u8>, s: Seq<char>)
    requires
        0 <= i,
        i + (tag + vmark() + spec_field(name, spec_encode_str(s)) + crlf()).len() <= b.len(),
        b.subrange(
            i,
            i + (tag + vmark() + spec_field(name, spec_encode_str(s)) + crlf()).len() as int,
        ) == tag + vmark() + spec_field(name, spec_encode_str(s)) + crlf(),
    ensures
        sp_lit(b, i, tag + vmark()) == Option::Some(i + tag.len() + 3),
        sp_field_str(b, i + tag.len() + 3, name) == Option::Some(
            (
                s,
                i + tag.len() + 3 + spec_field(name, spec_encode_str(s)).len() as int,
            ),
        ),
        sp_lit(b, i + tag.len() + 3 + spec_field(name, spec_encode_str(s)).len() as int, crlf())
            == Option::Some(
            i + (tag + vmark() + spec_field(name, spec_encode_str(s)) + crlf()).len() as int,
        ),
{
    let fld = spec_field(name, spec_encode_str(s));
    let full = tag + vmark() + fld + crlf();
    let tl = tag.len() as int + 3;
    let fl = fld.len() as int;
    let l = full.len() as int;
    lemma_subrange_slide(b, i, full, 0, tl);
    assert(full.subrange(0, tl) =~= tag + vmark());
    lemma_subrange_slide(b, i, full, tl, tl + fl);
    assert(full.subrange(tl, tl + fl) =~= fld);
    lemma_sp_field_str_of_encode(b, i + tl, name, s);
    lemma_subrange_slide(b, i, full, tl + fl, l);
    assert(full.subrange(tl + fl, l) =~= crlf());
}

/// The pieces of a two-string-field variant, where its encoding was
/// written.
proof fn lemma_variant_parts2(
    b: Seq<u8>,
    i: int,
    tag: Seq<u8>,
    n1: Seq<u8>,
    s1: Seq<char>,
    n2: Seq<u8>,
    s2: Seq<char>,
)
    requires
        0 <= i,
        i + (tag + vmark() + spec_field(n1, spec_encode_str(s1)) + spec_field(
            n2,
            spec_encode_str(s2),
        ) + crlf()).len() <= b.len(),
        b.subrange(
            i,
            i + (tag + vmark() + spec_field(n1, spec_encode_str(s1)) + spec_field(
                n2,
                spec_encode_str(s2),
            ) + crlf()).len() as int,
        ) == tag + vmark() + spec_field(n1, spec_encode_str(s1)) + spec_field(
            n2,
            spec_encode_str(s2),
        ) + crlf(),
    ensures
        sp_lit(b, i, tag + vmark()) == Option::Some(i + tag.len() + 3),
        sp_field_str(b, i + tag.len() + 3, n1) == Option::Some(
            (
                s1,
                i + tag.len() + 3 + spec_field(n1, spec_encode_str(s1)).len() as int,
            ),
        ),
        sp_field_str(
            b,
            i + tag.len() + 3 + spec_field(n1, spec_encode_str(s1)).len() as int,
            n2,
        ) == Option::Some(
            (
                s2,
                i + tag.len() + 3 + spec_field(n1, spec_encode_str(s1)).len() + spec_field(
                    n2,
                    spec_encode_str(s2),
                ).len() as int,
            ),
        ),
        sp_lit(
            b,
            i + tag.len() + 3 + spec_field(n1, spec_encode_str(s1)).len() + spec_field(
                n2,
                spec_encode_str(s2),
            ).len() as int,
            crlf(),
        ) == Option::Some(
            i + (tag + vmark() + spec_field(n1, spec_encode_str(s1)) + spec_field(
                n2,
                spec_encode_str(s2),
            ) + crlf()).len() as int,
        ),
{
    let f1 = spec_field(n1, spec_encode_str(s1));
    let f2 = spec_field(n2, spec_encode_str(s2));
    let full = tag + vmark() + f1 + f2 + crlf();
    let tl = tag.len() as int + 3;
    let l1 = f1.len() as int;
    let l2 = f2.len() as int;
    let l = full.len() as int;
    lemma_subrange_slide(b, i, full, 0, tl);
    assert(full.subrange(0, tl) =~= tag + vmark());
    lemma_subrange_slide(b, i, full, tl, tl + l1);
    assert(full.subrange(tl, tl + l1) =~= f1);
    lemma_sp_field_str_of_encode(b, i + tl, n1, s1);
    lemma_subrange_slide(b, i, full, tl + l1, tl + l1 + l2);
    assert(full.subrange(tl + l1, tl + l1 + l2) =~= f2);
    lemma_sp_field_str_of_encode(b, i + tl + l1, n2, s2);
    lemma_subrange_slide(b, i, full, tl + l1 + l2, l);
    assert(full.subrange(tl + l1 + l2, l) =~= crlf());
}

/// Reading a request where its encoding was written yields the request.
pub proof fn lemma_sp_request_of_encode(b: Seq<u8>, i: int, v: RequestView)
    requires
        0 <= i,
        i + spec_encode_request(v).len() <= b.len(),
        b.subrange(i, i + spec_encode_request(v).len() as int) == spec_encode_request(v),
    ensures
        sp_request(b, i) == Option::Some((v, i + spec_encode_request(v).len() as int)),
{
    let full = spec_encode_request(v);
    let l = full.len() as int;
    assert(b.subrange(i, i + l)[0] == b[i]);
    match v {
        RequestView::Put { key, value } => {
            lemma_variant_parts2(b, i, tag_set(), name_key(), key, name_value(), value);
        },
        RequestView::Get { key } => {
            assert(b[i] == 'G' as u8);
            assert((tag_set() + vmark())[0] == 'S' as u8);
            lemma_sp_lit_mismatch(b, i, tag_set() + vmark(), 0);
            lemma_variant_parts1(b, i, tag_get(), name_key(), key);
        },
        RequestView::Rm { key } => {
            assert(b[i] == 'R' as u8);
            assert((tag_set() + vmark())[0] == 'S' as u8);
            assert((tag_get() + vmark())[0] == 'G' as u8);
            lemma_sp_lit_mismatch(b, i, tag_set() + vmark(), 0);
            lemma_sp_lit_mismatch(b, i, tag_get() + vmark(), 0);
            lemma_variant_parts1(b, i, tag_rm(), name_key(), key);
        },
    }
}

/// Reading a command where its encoding was written yields the command.
pub proof fn lemma_sp_command_of_encode(b: Seq<u8>, i: int, v: CommandView)
    requires
        0 <= i,
        i + spec_encode_command(v).len() <= b.len(),
        b.subrange(i, i + spec_encode_command(v).len() as int) == spec_encode_command(v),
    ensures
        sp_command(b, i) == Option::Some((v, i + spec_encode_command(v).len() as int)),
{
    let full = spec_encode_command(v);
    let l = full.len() as int;
    assert(b.subrange(i, i + l)[0] == b[i]);
    match v {
        CommandView::Put { key, value } => {
            lemma_variant_parts2(b, i, tag_set(), name_key(), key, name_value(), value);
        },
        CommandView::Rm { key } => {
            assert(b[i] == 'R' as u8);
            assert((tag_set() + vmark())[0] == 'S' as u8);
            lemma_sp_lit_mismatch(b, i, tag_set() + vmark(), 0);
            lemma_variant_parts1(b, i, tag_rm(), name_key(), key);
        },
    }
}

/// Reading a response where its encoding was written yields the
/// response; a present result must be a non-empty string, since an empty
/// one is encoded as the absence mark `+0+` and reads back as absent.
pub proof fn lemma_sp_response_of_encode(b: Seq<u8>, i: int, v: ResponseView)
    requires
        0 <= i,
        i + spec_encode_response(v).len() <= b.len(),
        b.subrange(i, i + spec_encode_response(v).len() as int) == spec_encode_response(v),
        v matches ResponseView::Success { result: Option::Some(s) } ==> s.len() > 0,
    ensures
        sp_response(b, i) == Option::Some((v, i + spec_encode_response(v).len() as int)),
{
    let full = spec_encode_response(v);
    let l = full.len() as int;
    assert(b.subrange(i, i + l)[0] == b[i]);
    match v {
        ResponseView::Success { result } => {
            let fld = spec_field(name_result(), spec_encode_opt_str(result));
            let tl = tag_success().len() as int + 3;
            let fl = fld.len() as int;
            lemma_subrange_slide(b, i, full, 0, tl);
            assert(full.subrange(0, tl) =~= tag_success() + vmark());
            lemma_subrange_slide(b, i, full, tl, tl + fl);
            assert(full.subrange(tl, tl + fl) =~= fld);
            lemma_sp_field_opt_of_encode(b, i + tl, name_result(), result);
            lemma_subrange_slide(b, i, full, tl + fl, l);
            assert(full.subrange(tl + fl, l) =~= crlf());
        },
        ResponseView::Fail { message } => {
            assert(b[i] == 'F' as u8);
            assert((tag_success() + vmark())[0] == 'S' as u8);
            lemma_sp_lit_mismatch(b, i, tag_success() + vmark(), 0);
            lemma_variant_parts1(b, i, tag_fail(), name_message(), message);
        },
    }
}

/// Round trip: a request decodes from exactly its own encoding.
pub proof fn lemma_request_round_trip(v: RequestView)
    ensures
        sp_request(spec_encode_request(v), 0) == Option::Some(
            (v, spec_encode_request(v).len() as int),
        ),
{
    let e = spec_encode_request(v);
    assert(e.subrange(0, e.len() as int) =~= e);
    lemma_sp_request_of_encode(e, 0, v);
}

/// Round trip: a command decodes from exactly its own encoding.
pub proof fn lemma_command_round_trip(v: CommandView)
    ensures
        sp_command(spec_encode_command(v), 0) == Option::Some(
            (v, spec_encode_command(v).len() as int),
        ),
{
    let e = spec_encode_command(v);
    assert(e.subrange(0, e.len() as int) =~= e);
    lemma_sp_command_of_encode(e, 0, v);
}

/// Round trip: a response decodes from exactly its own encoding, except
/// that a present empty result reads back as an absent one (both are
/// `+0+` on the wire).
pub proof fn lemma_response_round_trip(v: ResponseView)
    requires
        v matches ResponseView::Success { result: Option::Some(s) } ==> s.len() > 0,
    ensures
        sp_response(spec_encode_response(v), 0) == Option::Some(
            (v, spec_encode_response(v).len() as int),
        ),
{
    let e = spec_encode_response(v);
    assert(e.subrange(0, e.len() as int) =~= e);
    lemma_sp_response_of_encode(e, 0, v);
}

/// True when `b2` extends `b1` without changing its bytes.
pub open spec fn extends(b1: Seq<u8>, b2: Seq<u8>) -> bool {
    b1.len() <= b2.len() && forall|k: int| 0 <= k < b1.len() ==> b1[k] == b2[k]
}

/// A digit scan that stops inside the bytes stops at the same place in
/// any extension.
proof fn lemma_scan_digits_frame(b1: Seq<u8>, b2: Seq<u8>, i: int)
    requires
        extends(b1, b2),
        sp_scan_digits(b1, i) < b1.len(),
    ensures
        sp_scan_digits(b2, i) == sp_scan_digits(b1, i),
    decreases b1.len() - i,
{
    if 0 <= i < b1.len() && is_digit(b1[i]) {
        lemma_scan_digits_frame(b1, b2, i + 1);
    }
}

/// The value of a digit run inside the bytes is the same in any
/// extension.
proof fn lemma_digits_value_frame(b1: Seq<u8>, b2: Seq<u8>, i: int, j: int)
    requires
        extends(b1, b2),
        0 <= i,
        j <= b1.len(),
    ensures
        sp_digits_value(b2, i, j) == sp_digits_value(b1, i, j),
    decreases j - i,
{
    if i < j {
        lemma_digits_value_frame(b1, b2, i, j - 1);
    }
}

/// A literal parsed inside the bytes parses the same in any extension.
proof fn lemma_sp_lit_frame(b1: Seq<u8>, b2: Seq<u8>, i: int, lit: Seq<u8>)
    requires
        extends(b1, b2),
        sp_lit(b1, i, lit) is Some,
    ensures
        sp_lit(b2, i, lit) == sp_lit(b1, i, lit),
{
    assert(b2.subrange(i, i + lit.len() as int) =~= b1.subrange(i, i + lit.len() as int));
}

/// A string parsed inside the bytes parses the same in any extension.
proof fn lemma_sp_str_frame(b1: Seq<u8>, b2: Seq<u8>, i: int)
    requires
        extends(b1, b2),
        sp_str(b1, i) is Some,
    ensures
        sp_str(b2, i) == sp_str(b1, i),
{
    let i1 = i + 1;
    let j = sp_scan_digits(b1, i1);
    assert(sp_byte(b1, i, '+' as u8) is Some);
    assert(sp_byte(b2, i, '+' as u8) == sp_byte(b1, i, '+' as u8));
    assert(sp_number(b1, i1) is Some);
    assert(sp_byte(b1, j, '+' as u8) is Some);
    assert(j < b1.len());
    lemma_scan_digits_frame(b1, b2, i1);
    lemma_digits_value_frame(b1, b2, i1, j);
    assert(sp_number(b2, i1) == sp_number(b1, i1));
    assert(sp_byte(b2, j, '+' as u8) == sp_byte(b1, j, '+' as u8));
    let n = sp_digits_value(b1, i1, j);
    let i3 = j + 1;
    assert(i3 + n <= b1.len());
    assert(b2.subrange(i3, i3 + n) =~= b1.subrange(i3, i3 + n));
}

/// A string field parsed inside the bytes parses the same in any
/// extension.
proof fn lemma_sp_field_str_frame(b1: Seq<u8>, b2: Seq<u8>, i: int, name: Seq<u8>)
    requires
        extends(b1, b2),
        sp_field_str(b1, i, name) is Some,
    ensures
        sp_field_str(b2, i, name) == sp_field_str(b1, i, name),
{
    lemma_sp_lit_frame(b1, b2, i, name + seq![':' as u8]);
    let i1 = i + name.len() as int + 1;
    lemma_sp_str_frame(b1, b2, i1);
    let (s, i2) = sp_str(b1, i1).unwrap();
    lemma_sp_lit_frame(b1, b2, i2, crlf());
}

/// A command parsed inside the bytes parses the same in any extension:
/// appending records to a segment does not change how its earlier
/// records read.
pub proof fn lemma_sp_command_frame(b1: Seq<u8>, b2: Seq<u8>, i: int)
    requires
        extends(b1, b2),
        sp_command(b1, i) is Some,
    ensures
        sp_command(b2, i) == sp_command(b1, i),
{
    match sp_lit(b1, i, tag_set() + vmark()) {
        Option::Some(i1) => {
            lemma_sp_lit_frame(b1, b2, i, tag_set() + vmark());
            lemma_sp_field_str_frame(b1, b2, i1, name_key());
            let (key, i2) = sp_field_str(b1, i1, name_key()).unwrap();
            lemma_sp_field_str_frame(b1, b2, i2, name_value());
            let (value, i3) = sp_field_str(b1, i2, name_value()).unwrap();
            lemma_sp_lit_frame(b1, b2, i3, crlf());
        },
        Option::None => {
            let i1 = sp_lit(b1, i, tag_rm() + vmark()).unwrap();
            lemma_sp_lit_frame(b1, b2, i, tag_rm() + vmark());
            assert(b1.subrange(i, i + (tag_rm() + vmark()).len() as int)[0] == b1[i]);
            assert(b1[i] == 'R' as u8);
            assert(b2[i] == 'R' as u8);
            assert((tag_set() + vmark())[0] == 'S' as u8);
            lemma_sp_lit_mismatch(b2, i, tag_set() + vmark(), 0);
            lemma_sp_field_str_frame(b1, b2, i1, name_key());
            let (key, i2) = sp_field_str(b1, i1, name_key()).unwrap();
            lemma_sp_lit_frame(b1, b2, i2, crlf());
        },
    }
}

/// A string parse consumes bytes strictly inside the input.
proof fn lemma_sp_str_bounds(b: Seq<u8>, i: int)
    requires
        sp_str(b, i) is Some,
    ensures
        0 <= i < sp_str(b, i).unwrap().1 <= b.len(),
{
    let i1 = i + 1;
    let j = sp_scan_digits(b, i1);
    assert(sp_byte(b, i, '+' as u8) is Some);
    lemma_scan_digits_props(b, i1);
    assert(sp_byte(b, j, '+' as u8) is Some);
}

/// A string field parse consumes bytes strictly inside the input.
proof fn lemma_sp_field_str_bounds(b: Seq<u8>, i: int, name: Seq<u8>)
    requires
        sp_field_str(b, i, name) is Some,
    ensures
        0 <= i < sp_field_str(b, i, name).unwrap().1 <= b.len(),
{
    let i1 = sp_lit(b, i, name + seq![':' as u8]).unwrap();
    lemma_sp_str_bounds(b, i1);
    let (s, i2) = sp_str(b, i1).unwrap();
    assert(sp_lit(b, i2, crlf()) is Some);
}

/// A command parse consumes bytes strictly inside the input.
pub proof fn lemma_sp_command_bounds(b: Seq<u8>, i: int)
    requires
        sp_command(b, i) is Some,
    ensures
        0 <= i < sp_command(b, i).unwrap().1 <= b.len(),
{
    match sp_lit(b, i, tag_set() + vmark()) {
        Option::Some(i1) => {
            lemma_sp_field_str_bounds(b, i1, name_key());
            let (key, i2) = sp_field_str(b, i1, name_key()).unwrap();
            lemma_sp_field_str_bounds(b, i2, name_value());
            let (value, i3) = sp_field_str(b, i2, name_value()).unwrap();
            assert(sp_lit(b, i3, crlf()) is Some);
        },
        Option::None => {
            let i1 = sp_lit(b, i, tag_rm() + vmark()).unwrap();
            lemma_sp_field_str_bounds(b, i1, name_key());
            let (key, i2) = sp_field_str(b, i1, name_key()).unwrap();
            assert(sp_lit(b, i2, crlf()) is Some);
        },
    }
}

} // verus!
