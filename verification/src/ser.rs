//! Encoding of commands, requests and responses into the wire grammar.
//!
//! The grammar is a self-delimiting text format:
//! a string is `+LEN+BYTES` with `LEN` the decimal byte length of `BYTES`;
//! an absent optional string is `+0+`;
//! a structure is a list of `name:value` fields, each terminated by CRLF,
//! closed by an empty CRLF; a tagged variant is `TAG#`, CRLF, then the
//! structure.  The same bytes serve as one on-disk record (followed by a
//! single `\n`) and as one request or response on a socket.

use crate::err::KvsError;
use crate::proto::Command;
use crate::proto::CommandView;
use crate::proto::Request;
use crate::proto::RequestView;
use crate::proto::Response;
use crate::proto::ResponseView;
use vstd::prelude::*;
use vstd::utf8::*;

verus! {

broadcast use vstd::utf8::group_utf8_lib;

/// The wire tag of a set command or request.
pub open spec fn tag_set() -> Seq<u8> {
    seq!['S' as u8, 'e' as u8, 't' as u8]
}

/// The wire tag of a get request.
pub open spec fn tag_get() -> Seq<u8> {
    seq!['G' as u8, 'e' as u8, 't' as u8]
}

/// The wire tag of a remove command or request.
pub open spec fn tag_rm() -> Seq<u8> {
    seq!['R' as u8, 'm' as u8]
}

/// The wire tag of a success response.
pub open spec fn tag_success() -> Seq<u8> {
    seq!['S' as u8, 'u' as u8, 'c' as u8, 'c' as u8, 'e' as u8, 's' as u8, 's' as u8]
}

/// The wire tag of a failure response.
pub open spec fn tag_fail() -> Seq<u8> {
    seq!['F' as u8, 'a' as u8, 'i' as u8, 'l' as u8]
}

/// The field name `key`.
pub open spec fn name_key() -> Seq<u8> {
    seq!['k' as u8, 'e' as u8, 'y' as u8]
}

/// The field name `value`.
pub open spec fn name_value() -> Seq<u8> {
    seq!['v' as u8, 'a' as u8, 'l' as u8, 'u' as u8, 'e' as u8]
}

/// The field name `result`.
pub open spec fn name_result() -> Seq<u8> {
    seq!['r' as u8, 'e' as u8, 's' as u8, 'u' as u8, 'l' as u8, 't' as u8]
}

/// The field name `message`.
pub open spec fn name_message() -> Seq<u8> {
    seq!['m' as u8, 'e' as u8, 's' as u8, 's' as u8, 'a' as u8, 'g' as u8, 'e' as u8]
}

/// The mark `#` CR LF that separates a variant tag from its fields.
pub open spec fn vmark() -> Seq<u8> {
    seq!['#' as u8, '\r' as u8, '\n' as u8]
}

/// A CR LF pair: terminates one field, and an empty one closes a structure.
pub open spec fn crlf() -> Seq<u8> {
    seq!['\r' as u8, '\n' as u8]
}

/// The encoding of an absent optional string.
pub open spec fn none_mark() -> Seq<u8> {
    seq!['+' as u8, '0' as u8, '+' as u8]
}

/// The decimal digits of `n`, most significant first, without leading
/// zeros; `0` is the single digit `0`.
pub open spec fn spec_dec_digits(n: nat) -> Seq<u8>
    decreases n,
{
    if n < 10 {
        seq![(48 + n) as u8]
    } else {
        spec_dec_digits(n / 10).push((48 + n % 10) as u8)
    }
}

/// The wire encoding of a string: `+LEN+BYTES`.
pub open spec fn spec_encode_str(s: Seq<char>) -> Seq<u8> {
    seq!['+' as u8] + spec_dec_digits(encode_utf8(s).len()) + seq!['+' as u8] + encode_utf8(s)
}

/// The wire encoding of an optional string: `+0+` when absent.
pub open spec fn spec_encode_opt_str(o: Option<Seq<char>>) -> Seq<u8> {
    match o {
        Option::None => none_mark(),
        Option::Some(s) => spec_encode_str(s),
    }
}

/// One field of a structure: `name:` then the payload, then CR LF.
pub open spec fn spec_field(name: Seq<u8>, payload: Seq<u8>) -> Seq<u8> {
    name + seq![':' as u8] + payload + crlf()
}

/// The wire encoding of a command, as written into a log segment
/// (the record itself; the on-disk framing appends one `\n`).
pub open spec fn spec_encode_command(v: CommandView) -> Seq<u8> {
    match v {
        CommandView::Put { key, value } => tag_set() + vmark() + spec_field(
            name_key(),
            spec_encode_str(key),
        ) + spec_field(name_value(), spec_encode_str(value)) + crlf(),
        CommandView::Rm { key } => tag_rm() + vmark() + spec_field(name_key(), spec_encode_str(key))
            + crlf(),
    }
}

/// The wire encoding of a request.
pub open spec fn spec_encode_request(v: RequestView) -> Seq<u8> {
    match v {
        RequestView::Put { key, value } => tag_set() + vmark() + spec_field(
            name_key(),
            spec_encode_str(key),
        ) + spec_field(name_value(), spec_encode_str(value)) + crlf(),
        RequestView::Get { key } => tag_get() + vmark() + spec_field(
            name_key(),
            spec_encode_str(key),
        ) + crlf(),
        RequestView::Rm { key } => tag_rm() + vmark() + spec_field(name_key(), spec_encode_str(key))
            + crlf(),
    }
}

/// The wire encoding of a response.
pub open spec fn spec_encode_response(v: ResponseView) -> Seq<u8> {
    match v {
        ResponseView::Success { result } => tag_success() + vmark() + spec_field(
            name_result(),
            spec_encode_opt_str(result),
        ) + crlf(),
        ResponseView::Fail { message } => tag_fail() + vmark() + spec_field(
            name_message(),
            spec_encode_str(message),
        ) + crlf(),
    }
}

/// A sequence of bytes below 128 is valid UTF-8.
pub proof fn lemma_ascii_seq_valid_utf8(b: Seq<u8>)
    requires
        forall|k: int| 0 <= k < b.len() ==> b[k] < 128,
    ensures
        valid_utf8(b),
{
    assert(partial_valid_utf8(b, 0));
    partial_valid_utf8_extend_ascii_block(b, 0, b.len() as int);
    assert(b.subrange(0, b.len() as int) =~= b);
}

/// Every decimal digit produced for `n` is an ASCII digit.
pub proof fn lemma_dec_digits_ascii(n: nat)
    ensures
        forall|k: int|
            0 <= k < spec_dec_digits(n).len() ==> 48 <= #[trigger] spec_dec_digits(n)[k] <= 57,
        spec_dec_digits(n).len() >= 1,
    decreases n,
{
    if n >= 10 {
        lemma_dec_digits_ascii(n / 10);
    }
}

/// The encoding of a string is valid UTF-8.
pub proof fn lemma_encode_str_valid_utf8(s: Seq<char>)
    ensures
        valid_utf8(spec_encode_str(s)),
{
    let digits = spec_dec_digits(encode_utf8(s).len());
    lemma_dec_digits_ascii(encode_utf8(s).len());
    lemma_ascii_seq_valid_utf8(seq!['+' as u8] + digits + seq!['+' as u8]);
    valid_utf8_concat(seq!['+' as u8] + digits + seq!['+' as u8], encode_utf8(s));
    assert((seq!['+' as u8] + digits + seq!['+' as u8]) + encode_utf8(s) =~= spec_encode_str(s));
}

/// One structure field around a valid-UTF-8 payload is valid UTF-8.
pub proof fn lemma_field_valid_utf8(name: Seq<u8>, payload: Seq<u8>)
    requires
        forall|k: int| 0 <= k < name.len() ==> name[k] < 128,
        valid_utf8(payload),
    ensures
        valid_utf8(spec_field(name, payload)),
{
    lemma_ascii_seq_valid_utf8(name + seq![':' as u8]);
    lemma_ascii_seq_valid_utf8(crlf());
    valid_utf8_concat(name + seq![':' as u8], payload);
    valid_utf8_concat((name + seq![':' as u8]) + payload, crlf());
    assert(((name + seq![':' as u8]) + payload) + crlf() =~= spec_field(name, payload));
}

/// Appends the bytes of `Set`.
pub(crate) fn push_tag_set(out: &mut Vec<u8>)
    ensures
        final(out)@ == old(out)@ + tag_set(),
{
    out.push('S' as u8);
    out.push('e' as u8);
    out.push('t' as u8);
    proof {
        assert(out@ =~= old(out)@ + tag_set());
    }
}

/// Appends the bytes of `Get`.
pub(crate) fn push_tag_get(out: &mut Vec<u8>)
    ensures
        final(out)@ == old(out)@ + tag_get(),
{
    out.push('G' as u8);
    out.push('e' as u8);
    out.push('t' as u8);
    proof {
        assert(out@ =~= old(out)@ + tag_get());
    }
}

/// Appends the bytes of `Rm`.
pub(crate) fn push_tag_rm(out: &mut Vec<u8>)
    ensures
        final(out)@ == old(out)@ + tag_rm(),
{
    out.push('R' as u8);
    out.push('m' as u8);
    proof {
        assert(out@ =~= old(out)@ + tag_rm());
    }
}

/// Appends the bytes of `Success`.
pub(crate) fn push_tag_success(out: &mut Vec<u8>)
    ensures
        final(out)@ == old(out)@ + tag_success(),
{
    out.push('S' as u8);
    out.push('u' as u8);
    out.push('c' as u8);
    out.push('c' as u8);
    out.push('e' as u8);
    out.push('s' as u8);
    out.push('s' as u8);
    proof {
        assert(out@ =~= old(out)@ + tag_success());
    }
}

/// Appends the bytes of `Fail`.
pub(crate) fn push_tag_fail(out: &mut Vec<u8>)
    ensures
        final(out)@ == old(out)@ + tag_fail(),
{
    out.push('F' as u8);
    out.push('a' as u8);
    out.push('i' as u8);
    out.push('l' as u8);
    proof {
        assert(out@ =~= old(out)@ + tag_fail());
    }
}

/// Appends the bytes of `key`.
pub(crate) fn push_name_key(out: &mut Vec<u8>)
    ensures
        final(out)@ == old(out)@ + name_key(),
{
    out.push('k' as u8);
    out.push('e' as u8);
    out.push('y' as u8);
    proof {
        assert(out@ =~= old(out)@ + name_key());
    }
}

/// Appends the bytes of `value`.
pub(crate) fn push_name_value(out: &mut Vec<u8>)
    ensures
        final(out)@ == old(out)@ + name_value(),
{
    out.push('v' as u8);
    out.push('a' as u8);
    out.push('l' as u8);
    out.push('u' as u8);
    out.push('e' as u8);
    proof {
        assert(out@ =~= old(out)@ + name_value());
    }
}

/// Appends the bytes of `result`.
pub(crate) fn push_name_result(out: &mut Vec<u8>)
    ensures
        final(out)@ == old(out)@ + name_result(),
{
    out.push('r' as u8);
    out.push('e' as u8);
    out.push('s' as u8);
    out.push('u' as u8);
    out.push('l' as u8);
    out.push('t' as u8);
    proof {
        assert(out@ =~= old(out)@ + name_result());
    }
}

/// Appends the bytes of `message`.
pub(crate) fn push_name_message(out: &mut Vec<u8>)
    ensures
        final(out)@ == old(out)@ + name_message(),
{
    out.push('m' as u8);
    out.push('e' as u8);
    out.push('s' as u8);
    out.push('s' as u8);
    out.push('a' as u8);
    out.push('g' as u8);
    out.push('e' as u8);
    proof {
        assert(out@ =~= old(out)@ + name_message());
    }
}

/// Appends `#` CR LF.
pub(crate) fn push_vmark(out: &mut Vec<u8>)
    ensures
        final(out)@ == old(out)@ + vmark(),
{
    out.push('#' as u8);
    out.push('\r' as u8);
    out.push('\n' as u8);
    proof {
        assert(out@ =~= old(out)@ + vmark());
    }
}

/// Appends CR LF.
pub(crate) fn push_crlf(out: &mut Vec<u8>)
    ensures
        final(out)@ == old(out)@ + crlf(),
{
    out.push('\r' as u8);
    out.push('\n' as u8);
    proof {
        assert(out@ =~= old(out)@ + crlf());
    }
}

/// Appends `+0+`, the encoding of an absent optional string.
pub(crate) fn push_none_mark(out: &mut Vec<u8>)
    ensures
        final(out)@ == old(out)@ + none_mark(),
{
    out.push('+' as u8);
    out.push('0' as u8);
    out.push('+' as u8);
    proof {
        assert(out@ =~= old(out)@ + none_mark());
    }
}

/// Appends the decimal digits of `n`, most significant first.
pub(crate) fn push_dec(out: &mut Vec<u8>, n: usize)
    ensures
        final(out)@ == old(out)@ + spec_dec_digits(n as nat),
    decreases n,
{
    if n < 10 {
        out.push(48 + (n as u8));
        proof {
            assert(out@ =~= old(out)@ + spec_dec_digits(n as nat));
        }
    } else {
        push_dec(out, n / 10);
        out.push(48 + ((n % 10) as u8));
        proof {
            assert(out@ =~= old(out)@ + spec_dec_digits(n as nat));
        }
    }
}

/// Appends the wire encoding of a string: `+LEN+BYTES`.
pub(crate) fn push_str(out: &mut Vec<u8>, s: &str)
    ensures
        final(out)@ == old(out)@ + spec_encode_str(s@),
{
    broadcast use vstd::slice::axiom_spec_len;

    out.push('+' as u8);
    let bs = s.as_bytes();
    push_dec(out, bs.len());
    out.push('+' as u8);
    out.extend_from_slice(bs);
    proof {
        assert(out@ =~= old(out)@ + spec_encode_str(s@));
    }
}

/// Appends the wire encoding of an optional string.
pub(crate) fn push_opt_str(out: &mut Vec<u8>, o: &Option<String>)
    ensures
        final(out)@ == old(out)@ + spec_encode_opt_str(match o {
            Option::Some(s) => Option::Some(s@),
            Option::None => Option::None,
        }),
{
    match o {
        Option::None => push_none_mark(out),
        Option::Some(s) => push_str(out, s.as_str()),
    }
}

/// Accumulates the wire encoding of one value.
pub struct Serializer {
    output: Vec<u8>,
}

impl View for Serializer {
    type V = Seq<u8>;

    closed spec fn view(&self) -> Seq<u8> {
        self.output@
    }
}

impl Serializer {
    /// An empty output buffer.
    pub fn new() -> (s: Serializer)
        ensures
            s@ == Seq::<u8>::empty(),
    {
        Serializer { output: Vec::new() }
    }

    /// The accumulated bytes.
    pub fn into_bytes(self) -> (r: Vec<u8>)
        ensures
            r@ == self@,
    {
        self.output
    }

    /// The accumulated bytes as text, when they are valid UTF-8.
    pub fn into_string(self) -> (r: Result<String, KvsError>)
        ensures
            match r {
                Ok(s) => valid_utf8(self@) && encode_utf8(s@) == self@,
                Err(e) => !valid_utf8(self@) && e is Serialize,
            },
    {
        match crate::de::bytes_to_string(&self.output) {
            Some(s) => {
                proof {
                    decode_utf8_encode_utf8(self.output@);
                }
                Ok(s)
            },
            None => Err(KvsError::Serialize(String::from_str("output is not text"))),
        }
    }
}

/// A value that the wire grammar can carry: its encoding is a function of
/// its mathematical view, and is always valid UTF-8.
pub trait Encode: View + Sized {
    /// The encoded bytes of a value with view `v`.
    spec fn spec_encode(v: Self::V) -> Seq<u8>;

    /// The encoding is text: it can always be carried in a `String`.
    proof fn lemma_encode_valid_utf8(v: Self::V)
        ensures
            valid_utf8(Self::spec_encode(v)),
    ;

    /// Appends this value's encoding to the output.
    fn serialize(&self, out: &mut Serializer)
        ensures
            final(out)@ == old(out)@ + Self::spec_encode(self@),
    ;
}

impl Encode for Request {
    open spec fn spec_encode(v: RequestView) -> Seq<u8> {
        spec_encode_request(v)
    }

    proof fn lemma_encode_valid_utf8(v: RequestView) {
        lemma_request_valid_utf8(v);
    }

    fn serialize(&self, out: &mut Serializer) {
        match self {
            Request::Put { key, value } => {
                push_tag_set(&mut out.output);
                push_vmark(&mut out.output);
                push_name_key(&mut out.output);
                out.output.push(':' as u8);
                push_str(&mut out.output, key.as_str());
                push_crlf(&mut out.output);
                push_name_value(&mut out.output);
                out.output.push(':' as u8);
                push_str(&mut out.output, value.as_str());
                push_crlf(&mut out.output);
                push_crlf(&mut out.output);
                proof {
                    assert(out@ =~= old(out)@ + spec_encode_request(self@));
                }
            },
            Request::Get { key } => {
                push_tag_get(&mut out.output);
                push_vmark(&mut out.output);
                push_name_key(&mut out.output);
                out.output.push(':' as u8);
                push_str(&mut out.output, key.as_str());
                push_crlf(&mut out.output);
                push_crlf(&mut out.output);
                proof {
                    assert(out@ =~= old(out)@ + spec_encode_request(self@));
                }
            },
            Request::Rm { key } => {
                push_tag_rm(&mut out.output);
                push_vmark(&mut out.output);
                push_name_key(&mut out.output);
                out.output.push(':' as u8);
                push_str(&mut out.output, key.as_str());
                push_crlf(&mut out.output);
                push_crlf(&mut out.output);
                proof {
                    assert(out@ =~= old(out)@ + spec_encode_request(self@));
                }
            },
        }
    }
}

impl Encode for Response {
    open spec fn spec_encode(v: ResponseView) -> Seq<u8> {
        spec_encode_response(v)
    }

    proof fn lemma_encode_valid_utf8(v: ResponseView) {
        lemma_response_valid_utf8(v);
    }

    fn serialize(&self, out: &mut Serializer) {
        match self {
            Response::Success { result } => {
                push_tag_success(&mut out.output);
                push_vmark(&mut out.output);
                push_name_result(&mut out.output);
                out.output.push(':' as u8);
                push_opt_str(&mut out.output, result);
                push_crlf(&mut out.output);
                push_crlf(&mut out.output);
                proof {
                    assert(out@ =~= old(out)@ + spec_encode_response(self@));
                }
            },
            Response::Fail { message } => {
                push_tag_fail(&mut out.output);
                push_vmark(&mut out.output);
                push_name_message(&mut out.output);
                out.output.push(':' as u8);
                push_str(&mut out.output, message.as_str());
                push_crlf(&mut out.output);
                push_crlf(&mut out.output);
                proof {
                    assert(out@ =~= old(out)@ + spec_encode_response(self@));
                }
            },
        }
    }
}

impl Encode for Command {
    open spec fn spec_encode(v: CommandView) -> Seq<u8> {
        spec_encode_command(v)
    }

    proof fn lemma_encode_valid_utf8(v: CommandView) {
        lemma_command_valid_utf8(v);
    }

    fn serialize(&self, out: &mut Serializer) {
        match self {
            Command::Put { key, value } => {
                push_tag_set(&mut out.output);
                push_vmark(&mut out.output);
                push_name_key(&mut out.output);
                out.output.push(':' as u8);
                push_str(&mut out.output, key.as_str());
                push_crlf(&mut out.output);
                push_name_value(&mut out.output);
                out.output.push(':' as u8);
                push_str(&mut out.output, value.as_str());
                push_crlf(&mut out.output);
                push_crlf(&mut out.output);
                proof {
                    assert(out@ =~= old(out)@ + spec_encode_command(self@));
                }
            },
            Command::Rm { key } => {
                push_tag_rm(&mut out.output);
                push_vmark(&mut out.output);
                push_name_key(&mut out.output);
                out.output.push(':' as u8);
                push_str(&mut out.output, key.as_str());
                push_crlf(&mut out.output);
                push_crlf(&mut out.output);
                proof {
                    assert(out@ =~= old(out)@ + spec_encode_command(self@));
                }
            },
        }
    }
}

/// The encoding of a request is valid UTF-8.
pub proof fn lemma_request_valid_utf8(v: RequestView)
    ensures
        valid_utf8(spec_encode_request(v)),
{
    match v {
        RequestView::Put { key, value } => {
            lemma_variant2_valid_utf8(tag_set(), name_key(), key, name_value(), value);
        },
        RequestView::Get { key } => {
            lemma_variant1_valid_utf8(tag_get(), name_key(), key);
        },
        RequestView::Rm { key } => {
            lemma_variant1_valid_utf8(tag_rm(), name_key(), key);
        },
    }
}

/// The encoding of a response is valid UTF-8.
pub proof fn lemma_response_valid_utf8(v: ResponseView)
    ensures
        valid_utf8(spec_encode_response(v)),
{
    match v {
        ResponseView::Success { result } => {
            match result {
                Option::Some(s) => {
                    lemma_variant1_valid_utf8(tag_success(), name_result(), s);
                },
                Option::None => {
                    lemma_ascii_seq_valid_utf8(spec_encode_response(v));
                },
            }
        },
        ResponseView::Fail { message } => {
            lemma_variant1_valid_utf8(tag_fail(), name_message(), message);
        },
    }
}

/// The encoding of a command is valid UTF-8.
pub proof fn lemma_command_valid_utf8(v: CommandView)
    ensures
        valid_utf8(spec_encode_command(v)),
{
    match v {
        CommandView::Put { key, value } => {
            lemma_variant2_valid_utf8(tag_set(), name_key(), key, name_value(), value);
        },
        CommandView::Rm { key } => {
            lemma_variant1_valid_utf8(tag_rm(), name_key(), key);
        },
    }
}

/// True when every byte of `b` is ASCII.
pub open spec fn all_ascii(b: Seq<u8>) -> bool {
    forall|k: int| 0 <= k < b.len() ==> b[k] < 128
}

/// Every literal of the grammar is ASCII.
proof fn lemma_lits_ascii()
    ensures
        all_ascii(tag_set()),
        all_ascii(tag_get()),
        all_ascii(tag_rm()),
        all_ascii(tag_success()),
        all_ascii(tag_fail()),
        all_ascii(name_key()),
        all_ascii(name_value()),
        all_ascii(name_result()),
        all_ascii(name_message()),
        all_ascii(vmark()),
        all_ascii(crlf()),
        all_ascii(none_mark()),
{
}

/// A one-field variant around a valid payload is valid UTF-8.
proof fn lemma_variant_field_valid_utf8(tag: Seq<u8>, name: Seq<u8>, payload: Seq<u8>)
    requires
        all_ascii(tag),
        all_ascii(name),
        valid_utf8(payload),
    ensures
        valid_utf8(tag + vmark() + spec_field(name, payload) + crlf()),
{
    lemma_lits_ascii();
    lemma_ascii_seq_valid_utf8(tag + vmark());
    lemma_field_valid_utf8(name, payload);
    lemma_ascii_seq_valid_utf8(crlf());
    valid_utf8_concat(tag + vmark(), spec_field(name, payload));
    valid_utf8_concat(tag + vmark() + spec_field(name, payload), crlf());
}

/// A two-field variant around valid payloads is valid UTF-8.
proof fn lemma_variant_fields2_valid_utf8(
    tag: Seq<u8>,
    n1: Seq<u8>,
    p1: Seq<u8>,
    n2: Seq<u8>,
    p2: Seq<u8>,
)
    requires
        all_ascii(tag),
        all_ascii(n1),
        all_ascii(n2),
        valid_utf8(p1),
        valid_utf8(p2),
    ensures
        valid_utf8(tag + vmark() + spec_field(n1, p1) + spec_field(n2, p2) + crlf()),
{
    lemma_lits_ascii();
    lemma_ascii_seq_valid_utf8(tag + vmark());
    lemma_field_valid_utf8(n1, p1);
    lemma_field_valid_utf8(n2, p2);
    lemma_ascii_seq_valid_utf8(crlf());
    valid_utf8_concat(tag + vmark(), spec_field(n1, p1));
    valid_utf8_concat(tag + vmark() + spec_field(n1, p1), spec_field(n2, p2));
    valid_utf8_concat(tag + vmark() + spec_field(n1, p1) + spec_field(n2, p2), crlf());
}

proof fn lemma_variant1_valid_utf8(tag: Seq<u8>, name: Seq<u8>, s: Seq<char>)
    requires
        all_ascii(tag),
        all_ascii(name),
    ensures
        valid_utf8(tag + vmark() + spec_field(name, spec_encode_str(s)) + crlf()),
{
    lemma_encode_str_valid_utf8(s);
    lemma_variant_field_valid_utf8(tag, name, spec_encode_str(s));
}

proof fn lemma_variant2_valid_utf8(
    tag: Seq<u8>,
    n1: Seq<u8>,
    s1: Seq<char>,
    n2: Seq<u8>,
    s2: Seq<char>,
)
    requires
        all_ascii(tag),
        all_ascii(n1),
        all_ascii(n2),
    ensures
        valid_utf8(
            tag + vmark() + spec_field(n1, spec_encode_str(s1)) + spec_field(
                n2,
                spec_encode_str(s2),
            ) + crlf(),
        ),
{
    lemma_encode_str_valid_utf8(s1);
    lemma_encode_str_valid_utf8(s2);
    lemma_variant_fields2_valid_utf8(tag, n1, spec_encode_str(s1), n2, spec_encode_str(s2));
}

/// Encodes a value into the text of the wire grammar.  Encoding never
/// fails on the structures this library defines.
pub fn to_string<T: Encode>(value: &T) -> (r: Result<String, KvsError>)
    ensures
        r matches Ok(s) && encode_utf8(s@) == T::spec_encode(value@),
{
    let mut out = Serializer::new();
    value.serialize(&mut out);
    proof {
        T::lemma_encode_valid_utf8(value@);
    }
    let r = out.into_string();
    match r {
        Ok(s) => Ok(s),
        Err(e) => {
            proof {
                assert(false);
            }
            Err(e)
        },
    }
}

} // verus!
