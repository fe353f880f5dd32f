//! The wire envelope: a binary, map-shaped encoding of [`Request`] and
//! [`Response`] whose field names are part of the compatibility contract.
//!
//! Every value is written in its shortest form: small lengths use the
//! one-byte fixed headers, larger ones the 8-, 16- or 32-bit headers with
//! big-endian lengths. Strings carry UTF-8 text, argument blobs are raw
//! bytes, and each envelope is a small map from field name to value. The
//! decoder accepts exactly what the encoder emits, so decoding inverts
//! encoding.

use vstd::prelude::*;
use vstd::utf8::*;
use vstd::arithmetic::div_mod::{
    lemma_fundamental_div_mod,
    lemma_fundamental_div_mod_converse_div,
    lemma_fundamental_div_mod_converse_mod,
};

use crate::{Id, ObjectID, ObjectIDView, RemoteError, Request, RequestView, Response, ResponseView};

verus! {

/// The two bytes of a 16-bit big-endian length.
pub open spec fn be16(n: int) -> Seq<u8> {
    seq![(n / 256 % 256) as u8, (n % 256) as u8]
}

/// The four bytes of a 32-bit big-endian length.
pub open spec fn be32(n: int) -> Seq<u8> {
    seq![
        (n / 0x1000000 % 256) as u8,
        (n / 0x10000 % 256) as u8,
        (n / 256 % 256) as u8,
        (n % 256) as u8,
    ]
}

/// Header of a string of `n` UTF-8 bytes, in its shortest form.
pub open spec fn str_header(n: int) -> Seq<u8> {
    if n < 32 {
        seq![(0xa0 + n) as u8]
    } else if n < 256 {
        seq![0xd9u8, n as u8]
    } else if n < 65536 {
        seq![0xdau8] + be16(n)
    } else {
        seq![0xdbu8] + be32(n)
    }
}

/// Header of a binary blob of `n` bytes, in its shortest form.
pub open spec fn bin_header(n: int) -> Seq<u8> {
    if n < 256 {
        seq![0xc4u8, n as u8]
    } else if n < 65536 {
        seq![0xc5u8] + be16(n)
    } else {
        seq![0xc6u8] + be32(n)
    }
}

/// Header of an array of `n` elements, in its shortest form.
pub open spec fn arr_header(n: int) -> Seq<u8> {
    if n < 16 {
        seq![(0x90 + n) as u8]
    } else if n < 65536 {
        seq![0xdcu8] + be16(n)
    } else {
        seq![0xddu8] + be32(n)
    }
}

/// Header of a map of `n` key-value pairs; every envelope map is small.
pub open spec fn map_header(n: int) -> Seq<u8> {
    seq![(0x80 + n) as u8]
}

/// A string fits on the wire when its UTF-8 form fits a 32-bit length.
pub open spec fn str_encodable(s: Seq<char>) -> bool {
    encode_utf8(s).len() < 0x100000000
}

/// A blob fits on the wire when its length fits 32 bits.
pub open spec fn bin_encodable(b: Seq<u8>) -> bool {
    b.len() < 0x100000000
}

/// An argument list fits when its count and every blob fit 32 bits.
pub open spec fn args_encodable(args: Seq<Seq<u8>>) -> bool {
    &&& args.len() < 0x100000000
    &&& forall|i: int| 0 <= i < args.len() ==> bin_encodable(#[trigger] args[i])
}

/// The encoding of one string: shortest header, then its UTF-8 bytes.
pub open spec fn enc_str(s: Seq<char>) -> Seq<u8> {
    str_header(encode_utf8(s).len() as int) + encode_utf8(s)
}

/// The encoding of one blob: shortest header, then the bytes themselves.
pub open spec fn enc_bin(b: Seq<u8>) -> Seq<u8> {
    bin_header(b.len() as int) + b
}

/// The encodings of a sequence of blobs, one after the other.
pub open spec fn enc_bins(args: Seq<Seq<u8>>) -> Seq<u8>
    decreases args.len(),
{
    if args.len() == 0 {
        Seq::<u8>::empty()
    } else {
        enc_bin(args[0]) + enc_bins(args.drop_first())
    }
}

/// The encoding of an argument list: array header, then each blob.
pub open spec fn enc_args(args: Seq<Seq<u8>>) -> Seq<u8> {
    arr_header(args.len() as int) + enc_bins(args)
}

/// Whether an object identity fits on the wire.
pub open spec fn oid_encodable(o: ObjectIDView) -> bool {
    str_encodable(o.name) && str_encodable(o.version)
}

/// The encoding of an object identity: a two-entry map, `Name` then
/// `Version`.
pub open spec fn enc_object_id(o: ObjectIDView) -> Seq<u8> {
    map_header(2) + enc_str("Name"@) + enc_str(o.name) + enc_str("Version"@) + enc_str(o.version)
}

/// Whether a request fits on the wire.
pub open spec fn req_encodable(r: RequestView) -> bool {
    &&& str_encodable(r.id)
    &&& args_encodable(r.arguments)
    &&& oid_encodable(r.object)
    &&& str_encodable(r.reply_to)
    &&& str_encodable(r.method)
}

/// The encoding of a request: a five-entry map in fixed field order.
pub open spec fn enc_request(r: RequestView) -> Seq<u8> {
    map_header(5) + enc_str("ID"@) + enc_str(r.id) + enc_str("Arguments"@) + enc_args(r.arguments)
        + enc_str("Object"@) + enc_object_id(r.object) + enc_str("ReplyTo"@) + enc_str(r.reply_to)
        + enc_str("Method"@) + enc_str(r.method)
}

/// Whether a response fits on the wire.
pub open spec fn resp_encodable(r: ResponseView) -> bool {
    &&& str_encodable(r.id)
    &&& args_encodable(r.arguments)
    &&& str_encodable(r.error)
}

/// The encoding of a response: a three-entry map in fixed field order.
pub open spec fn enc_response(r: ResponseView) -> Seq<u8> {
    map_header(3) + enc_str("ID"@) + enc_str(r.id) + enc_str("Arguments"@) + enc_args(r.arguments)
        + enc_str("Error"@) + enc_str(r.error)
}

/// The encoding of a handler-reported failure: a one-entry map.
pub open spec fn enc_remote_error(m: Seq<char>) -> Seq<u8> {
    map_header(1) + enc_str("Message"@) + enc_str(m)
}

/// `content` sits in `b` starting at `pos`.
pub open spec fn bytes_at(b: Seq<u8>, pos: int, content: Seq<u8>) -> bool {
    &&& 0 <= pos
    &&& pos + content.len() <= b.len()
    &&& b.subrange(pos, pos + content.len() as int) == content
}

/// A concatenation sits at `pos` exactly when its parts sit back to back.
pub proof fn lemma_bytes_at_concat(b: Seq<u8>, pos: int, x: Seq<u8>, y: Seq<u8>)
    ensures
        bytes_at(b, pos, x + y) <==> (bytes_at(b, pos, x) && bytes_at(b, pos + x.len(), y)),
{
    if bytes_at(b, pos, x + y) {
        let xy = x + y;
        let sub = b.subrange(pos, pos + xy.len() as int);
        assert(forall|i: int| 0 <= i < xy.len() ==> b[pos + i] == xy[i]) by {
            assert(forall|i: int| 0 <= i < xy.len() ==> #[trigger] sub[i] == b[pos + i]);
        }
        assert(b.subrange(pos, pos + x.len() as int) =~= x);
        let suby = b.subrange(pos + x.len(), pos + x.len() + y.len() as int);
        assert forall|j: int| 0 <= j < y.len() implies suby[j] == y[j] by {
            assert(b[pos + (x.len() + j)] == xy[x.len() + j]);
            assert(suby[j] == b[pos + x.len() + j]);
        }
        assert(suby =~= y);
    }
    if bytes_at(b, pos, x) && bytes_at(b, pos + x.len(), y) {
        assert(b.subrange(pos, pos + (x + y).len() as int) =~= x + y);
    }
}

/// Appending one blob extends the concatenated encodings at the end.
pub proof fn lemma_enc_bins_push(s: Seq<Seq<u8>>, x: Seq<u8>)
    ensures
        enc_bins(s.push(x)) == enc_bins(s) + enc_bin(x),
    decreases s.len(),
{
    if s.len() == 0 {
        assert(s.push(x)[0] == x);
        assert(s.push(x).drop_first() =~= s);
        assert(enc_bins(s.push(x)) =~= enc_bins(s) + enc_bin(x));
    } else {
        assert(s.push(x).drop_first() =~= s.drop_first().push(x));
        lemma_enc_bins_push(s.drop_first(), x);
        assert(s.push(x)[0] == s[0]);
        assert(enc_bins(s.push(x)) =~= enc_bins(s) + enc_bin(x));
    }
}

/// The concatenated encodings split at any index.
pub proof fn lemma_enc_bins_split(xs: Seq<Seq<u8>>, i: int)
    requires
        0 <= i <= xs.len(),
    ensures
        enc_bins(xs) == enc_bins(xs.take(i)) + enc_bins(xs.skip(i)),
    decreases i,
{
    if i == 0 {
        assert(xs.take(0) =~= Seq::<Seq<u8>>::empty());
        assert(xs.skip(0) =~= xs);
        assert(enc_bins(xs) =~= enc_bins(xs.take(0)) + enc_bins(xs.skip(0)));
    } else {
        lemma_enc_bins_split(xs.drop_first(), i - 1);
        assert(xs.take(i).drop_first() =~= xs.drop_first().take(i - 1));
        assert(xs.skip(i) =~= xs.drop_first().skip(i - 1));
        assert(xs.take(i).len() != 0);
        assert(xs.take(i)[0] == xs[0]);
        assert(enc_bins(xs) =~= enc_bins(xs.take(i)) + enc_bins(xs.skip(i)));
    }
}

/// Two big-endian bytes name exactly the 16-bit value built from them.
proof fn lemma_be16_digits(b1: u8, b2: u8)
    ensures
        ({
            let n = b1 as int * 256 + b2 as int;
            &&& 0 <= n < 65536
            &&& be16(n) =~= seq![b1, b2]
        }),
{
    let n = b1 as int * 256 + b2 as int;
    lemma_fundamental_div_mod_converse_div(n, 256, b1 as int, b2 as int);
    lemma_fundamental_div_mod_converse_mod(n, 256, b1 as int, b2 as int);
    lemma_fundamental_div_mod_converse_mod(b1 as int, 256, 0, b1 as int);
}

/// Four big-endian bytes name exactly the 32-bit value built from them.
proof fn lemma_be32_digits(b1: u8, b2: u8, b3: u8, b4: u8)
    ensures
        ({
            let n = b1 as int * 0x1000000 + b2 as int * 0x10000 + b3 as int * 256 + b4 as int;
            &&& 0 <= n < 0x100000000
            &&& be32(n) =~= seq![b1, b2, b3, b4]
        }),
{
    let n = b1 as int * 0x1000000 + b2 as int * 0x10000 + b3 as int * 256 + b4 as int;
    let q1 = b1 as int * 0x10000 + b2 as int * 256 + b3 as int;
    let q2 = b1 as int * 256 + b2 as int;
    lemma_fundamental_div_mod_converse_div(n, 256, q1, b4 as int);
    lemma_fundamental_div_mod_converse_mod(n, 256, q1, b4 as int);
    lemma_fundamental_div_mod_converse_div(q1, 256, q2, b3 as int);
    lemma_fundamental_div_mod_converse_mod(q1, 256, q2, b3 as int);
    lemma_fundamental_div_mod_converse_div(
        n,
        0x10000,
        q2,
        b3 as int * 256 + b4 as int,
    );
    lemma_fundamental_div_mod_converse_mod(q2, 256, b1 as int, b2 as int);
    lemma_fundamental_div_mod_converse_div(
        n,
        0x1000000,
        b1 as int,
        b2 as int * 0x10000 + b3 as int * 256 + b4 as int,
    );
    lemma_fundamental_div_mod_converse_mod(b1 as int, 256, 0, b1 as int);
}

/// Reading the two big-endian bytes of a 16-bit value gives it back.
proof fn lemma_be16_reconstruct(m: int)
    requires
        0 <= m < 65536,
    ensures
        be16(m)[0] as int * 256 + be16(m)[1] as int == m,
{
    lemma_fundamental_div_mod(m, 256);
    lemma_fundamental_div_mod_converse_mod(m / 256, 256, 0, m / 256);
}

/// Reading the four big-endian bytes of a 32-bit value gives it back.
proof fn lemma_be32_reconstruct(m: int)
    requires
        0 <= m < 0x100000000,
    ensures
        be32(m)[0] as int * 0x1000000 + be32(m)[1] as int * 0x10000 + be32(m)[2] as int * 256
            + be32(m)[3] as int == m,
{
    lemma_fundamental_div_mod(m, 0x1000000);
    lemma_fundamental_div_mod(m, 0x10000);
    lemma_fundamental_div_mod(m, 256);
    let q3 = m / 0x1000000;
    let q2 = m / 0x10000;
    let q1 = m / 256;
    lemma_fundamental_div_mod(q2, 256);
    lemma_fundamental_div_mod(q1, 256);
    // q2 / 256 == q3 and q1 / 256 == q2, by uniqueness of division
    lemma_fundamental_div_mod_converse_div(m, 0x1000000, q2 / 256, m - 0x1000000 * (q2 / 256));
    lemma_fundamental_div_mod_converse_div(m, 0x10000, q1 / 256, m - 0x10000 * (q1 / 256));
    lemma_fundamental_div_mod_converse_mod(q3, 256, 0, q3);
}

/// All the fixed field names are short ASCII, so they fit on the wire.
proof fn lemma_ascii_encodable(s: Seq<char>)
    requires
        is_ascii_chars(s),
        s.len() < 0x100000000,
    ensures
        str_encodable(s),
        encode_utf8(s).len() == s.len(),
{
    is_ascii_chars_encode_utf8(s);
}

/// The field names of the envelope maps fit on the wire.
proof fn lemma_keys_encodable()
    ensures
        str_encodable("ID"@),
        str_encodable("Arguments"@),
        str_encodable("Object"@),
        str_encodable("ReplyTo"@),
        str_encodable("Method"@),
        str_encodable("Name"@),
        str_encodable("Version"@),
        str_encodable("Error"@),
        str_encodable("Message"@),
{
    reveal_strlit("ID");
    reveal_strlit("Arguments");
    reveal_strlit("Object");
    reveal_strlit("ReplyTo");
    reveal_strlit("Method");
    reveal_strlit("Name");
    reveal_strlit("Version");
    reveal_strlit("Error");
    reveal_strlit("Message");
    lemma_ascii_encodable("ID"@);
    lemma_ascii_encodable("Arguments"@);
    lemma_ascii_encodable("Object"@);
    lemma_ascii_encodable("ReplyTo"@);
    lemma_ascii_encodable("Method"@);
    lemma_ascii_encodable("Name"@);
    lemma_ascii_encodable("Version"@);
    lemma_ascii_encodable("Error"@);
    lemma_ascii_encodable("Message"@);
}

fn push_be16(out: &mut Vec<u8>, n: u16)
    ensures
        final(out)@ == old(out)@ + be16(n as int),
{
    out.push((n / 256) as u8);
    out.push((n % 256) as u8);
    proof {
        assert(out@ =~= old(out)@ + be16(n as int));
    }
}

fn push_be32(out: &mut Vec<u8>, n: u32)
    ensures
        final(out)@ == old(out)@ + be32(n as int),
{
    out.push((n / 0x1000000) as u8);
    out.push((n / 0x10000 % 256) as u8);
    out.push((n / 256 % 256) as u8);
    out.push((n % 256) as u8);
    proof {
        assert(out@ =~= old(out)@ + be32(n as int));
    }
}

fn push_str_header(out: &mut Vec<u8>, n: usize)
    requires
        (n as int) < 0x100000000,
    ensures
        final(out)@ == old(out)@ + str_header(n as int),
{
    if n < 32 {
        out.push((0xa0 + n) as u8);
        proof {
            assert(out@ =~= old(out)@ + str_header(n as int));
        }
    } else if n < 256 {
        out.push(0xd9);
        out.push(n as u8);
        proof {
            assert(out@ =~= old(out)@ + str_header(n as int));
        }
    } else if n < 65536 {
        out.push(0xda);
        push_be16(out, n as u16);
        proof {
            assert(out@ =~= old(out)@ + str_header(n as int));
        }
    } else {
        out.push(0xdb);
        push_be32(out, n as u32);
        proof {
            assert(out@ =~= old(out)@ + str_header(n as int));
        }
    }
}

fn push_bin_header(out: &mut Vec<u8>, n: usize)
    requires
        (n as int) < 0x100000000,
    ensures
        final(out)@ == old(out)@ + bin_header(n as int),
{
    if n < 256 {
        out.push(0xc4);
        out.push(n as u8);
        proof {
            assert(out@ =~= old(out)@ + bin_header(n as int));
        }
    } else if n < 65536 {
        out.push(0xc5);
        push_be16(out, n as u16);
        proof {
            assert(out@ =~= old(out)@ + bin_header(n as int));
        }
    } else {
        out.push(0xc6);
        push_be32(out, n as u32);
        proof {
            assert(out@ =~= old(out)@ + bin_header(n as int));
        }
    }
}

fn push_arr_header(out: &mut Vec<u8>, n: usize)
    requires
        (n as int) < 0x100000000,
    ensures
        final(out)@ == old(out)@ + arr_header(n as int),
{
    if n < 16 {
        out.push((0x90 + n) as u8);
        proof {
            assert(out@ =~= old(out)@ + arr_header(n as int));
        }
    } else if n < 65536 {
        out.push(0xdc);
        push_be16(out, n as u16);
        proof {
            assert(out@ =~= old(out)@ + arr_header(n as int));
        }
    } else {
        out.push(0xdd);
        push_be32(out, n as u32);
        proof {
            assert(out@ =~= old(out)@ + arr_header(n as int));
        }
    }
}

fn push_map_header(out: &mut Vec<u8>, n: u8)
    requires
        n < 16,
    ensures
        final(out)@ == old(out)@ + map_header(n as int),
{
    out.push(0x80 + n);
    proof {
        assert(out@ =~= old(out)@ + map_header(n as int));
    }
}

/// Appends one string that is already known to fit, such as a field name.
fn push_str_unchecked(out: &mut Vec<u8>, s: &str)
    requires
        str_encodable(s@),
    ensures
        final(out)@ == old(out)@ + enc_str(s@),
{
    let mut b = s.as_bytes_vec();
    push_str_header(out, b.len());
    out.append(&mut b);
    proof {
        assert(out@ =~= old(out)@ + enc_str(s@));
    }
}

/// Appends one string, refusing one whose UTF-8 form overflows a 32-bit
/// length; a refusal leaves the output untouched.
fn try_push_str(out: &mut Vec<u8>, s: &str) -> (ok: bool)
    ensures
        ok == str_encodable(s@),
        ok ==> final(out)@ == old(out)@ + enc_str(s@),
        !ok ==> final(out)@ == old(out)@,
{
    let b = s.as_bytes_vec();
    if !(((b.len() as u64)) < 0x100000000u64) {
        return false;
    }
    push_str_unchecked(out, s);
    true
}

/// Appends one blob that is already known to fit.
fn push_bin(out: &mut Vec<u8>, b: &Vec<u8>)
    requires
        bin_encodable(b@),
    ensures
        final(out)@ == old(out)@ + enc_bin(b@),
{
    push_bin_header(out, b.len());
    out.extend_from_slice(b.as_slice());
    proof {
        assert(out@ =~= old(out)@ + enc_bin(b@));
    }
}

/// Appends an argument list, refusing one whose count or blobs overflow a
/// 32-bit length; a refusal leaves the output untouched.
fn try_push_args(out: &mut Vec<u8>, args: &Vec<Vec<u8>>) -> (ok: bool)
    ensures
        ok == args_encodable(args.deep_view()),
        ok ==> final(out)@ == old(out)@ + enc_args(args.deep_view()),
        !ok ==> final(out)@ == old(out)@,
{
    if !(((args.len() as u64)) < 0x100000000u64) {
        return false;
    }
    let mut i: usize = 0;
    while i < args.len()
        invariant
            i <= args@.len(),
            forall|k: int| 0 <= k < i ==> bin_encodable(#[trigger] args.deep_view()[k]),
        decreases args@.len() - i,
    {
        if !(((args[i].len() as u64)) < 0x100000000u64) {
            proof {
                assert(args.deep_view()[i as int] == args@[i as int]@);
            }
            return false;
        }
        proof {
            assert(args.deep_view()[i as int] == args@[i as int]@);
        }
        i += 1;
    }
    push_arr_header(out, args.len());
    let ghost start = out@;
    let mut j: usize = 0;
    while j < args.len()
        invariant
            j <= args@.len(),
            args_encodable(args.deep_view()),
            start == old(out)@ + arr_header(args.deep_view().len() as int),
            out@ == start + enc_bins(args.deep_view().take(j as int)),
        decreases args@.len() - j,
    {
        proof {
            assert(args.deep_view()[j as int] == args@[j as int]@);
        }
        push_bin(out, &args[j]);
        proof {
            lemma_enc_bins_push(args.deep_view().take(j as int), args.deep_view()[j as int]);
            assert(args.deep_view().take(j as int).push(args.deep_view()[j as int]) =~= args
                .deep_view()
                .take(j as int + 1));
            assert(out@ =~= start + enc_bins(args.deep_view().take(j as int + 1)));
        }
        j += 1;
    }
    proof {
        assert(args.deep_view().take(args@.len() as int) =~= args.deep_view());
        assert(out@ =~= old(out)@ + enc_args(args.deep_view()));
    }
    true
}

/// Appends an object identity, refusing one that overflows; a refusal
/// leaves the output untouched.
fn try_push_object_id(out: &mut Vec<u8>, o: &ObjectID) -> (ok: bool)
    ensures
        ok == oid_encodable(o@),
        ok ==> final(out)@ == old(out)@ + enc_object_id(o@),
        !ok ==> final(out)@ == old(out)@,
{
    let name_bytes = o.name_str().as_bytes_vec();
    let version_bytes = o.version_str().as_bytes_vec();
    if !(((name_bytes.len() as u64)) < 0x100000000u64) {
        return false;
    }
    if !(((version_bytes.len() as u64)) < 0x100000000u64) {
        return false;
    }
    proof {
        lemma_keys_encodable();
    }
    push_map_header(out, 2);
    push_str_unchecked(out, "Name");
    push_str_unchecked(out, o.name_str());
    push_str_unchecked(out, "Version");
    push_str_unchecked(out, o.version_str());
    proof {
        assert(out@ =~= old(out)@ + enc_object_id(o@));
    }
    true
}

/// Serializes a request for the wire. Refuses exactly the requests whose
/// strings, argument count or blobs overflow a 32-bit length.
pub fn encode_request(r: &Request) -> (res: Option<Vec<u8>>)
    ensures
        res is Some <==> req_encodable(r@),
        res matches Some(v) ==> v@ == enc_request(r@),
{
    proof {
        lemma_keys_encodable();
    }
    let mut out: Vec<u8> = Vec::new();
    push_map_header(&mut out, 5);
    push_str_unchecked(&mut out, "ID");
    if !try_push_str(&mut out, r.id().as_str()) {
        return None;
    }
    push_str_unchecked(&mut out, "Arguments");
    if !try_push_args(&mut out, r.args()) {
        return None;
    }
    push_str_unchecked(&mut out, "Object");
    if !try_push_object_id(&mut out, r.object_ref()) {
        return None;
    }
    push_str_unchecked(&mut out, "ReplyTo");
    if !try_push_str(&mut out, r.reply_to_id().as_str()) {
        return None;
    }
    push_str_unchecked(&mut out, "Method");
    if !try_push_str(&mut out, r.method()) {
        return None;
    }
    proof {
        assert(out@ =~= enc_request(r@));
    }
    Some(out)
}

/// Serializes a response for the wire. Refuses exactly the responses whose
/// strings, argument count or blobs overflow a 32-bit length.
pub fn encode_response(r: &Response) -> (res: Option<Vec<u8>>)
    ensures
        res is Some <==> resp_encodable(r@),
        res matches Some(v) ==> v@ == enc_response(r@),
{
    proof {
        lemma_keys_encodable();
    }
    let mut out: Vec<u8> = Vec::new();
    push_map_header(&mut out, 3);
    push_str_unchecked(&mut out, "ID");
    if !try_push_str(&mut out, r.id.as_str()) {
        return None;
    }
    push_str_unchecked(&mut out, "Arguments");
    if !try_push_args(&mut out, &r.arguments) {
        return None;
    }
    push_str_unchecked(&mut out, "Error");
    if !try_push_str(&mut out, r.error.as_str()) {
        return None;
    }
    proof {
        assert(out@ =~= enc_response(r@));
    }
    Some(out)
}

/// Serializes a handler-reported failure. Refuses exactly the messages
/// whose UTF-8 form overflows a 32-bit length.
pub fn encode_remote_error(e: &RemoteError) -> (res: Option<Vec<u8>>)
    ensures
        res is Some <==> str_encodable(e@),
        res matches Some(v) ==> v@ == enc_remote_error(e@),
{
    proof {
        lemma_keys_encodable();
    }
    let mut out: Vec<u8> = Vec::new();
    push_map_header(&mut out, 1);
    push_str_unchecked(&mut out, "Message");
    if !try_push_str(&mut out, e.message.as_str()) {
        return None;
    }
    proof {
        assert(out@ =~= enc_remote_error(e@));
    }
    Some(out)
}

/// One byte of `content` sits at its offset in `b`.
proof fn lemma_bytes_at_index(b: Seq<u8>, pos: int, c: Seq<u8>, i: int)
    requires
        bytes_at(b, pos, c),
        0 <= i < c.len(),
    ensures
        c[i] == b[pos + i],
{
    assert(b.subrange(pos, pos + c.len() as int)[i] == b[pos + i]);
}

/// Relies on `String::from_utf8`: it succeeds exactly on valid UTF-8 and
/// returns the string those bytes encode.
#[verifier::external_body]
fn utf8_to_string(v: Vec<u8>) -> (r: Option<String>)
    ensures
        r is Some <==> valid_utf8(v@),
        r matches Some(s) ==> s@ == decode_utf8(v@),
{
    String::from_utf8(v).ok()
}

fn read_be16(bytes: &Vec<u8>, pos: usize) -> (n: u32)
    requires
        pos + 2 <= bytes@.len(),
    ensures
        n < 65536,
        bytes@.subrange(pos as int, pos as int + 2) == be16(n as int),
{
    let _total: usize = bytes.len();
    let n = (bytes[pos] as u32) * 256 + (bytes[pos + 1] as u32);
    proof {
        lemma_be16_digits(bytes@[pos as int], bytes@[pos as int + 1]);
        assert(bytes@.subrange(pos as int, pos as int + 2) =~= seq![
            bytes@[pos as int],
            bytes@[pos as int + 1],
        ]);
    }
    n
}

fn read_be32(bytes: &Vec<u8>, pos: usize) -> (n: u32)
    requires
        pos + 4 <= bytes@.len(),
    ensures
        n < 0x100000000,
        bytes@.subrange(pos as int, pos as int + 4) == be32(n as int),
{
    let _total: usize = bytes.len();
    let n = (bytes[pos] as u32) * 0x1000000 + (bytes[pos + 1] as u32) * 0x10000 + (bytes[pos
        + 2] as u32) * 256 + (bytes[pos + 3] as u32);
    proof {
        lemma_be32_digits(
            bytes@[pos as int],
            bytes@[pos as int + 1],
            bytes@[pos as int + 2],
            bytes@[pos as int + 3],
        );
        assert(bytes@.subrange(pos as int, pos as int + 4) =~= seq![
            bytes@[pos as int],
            bytes@[pos as int + 1],
            bytes@[pos as int + 2],
            bytes@[pos as int + 3],
        ]);
    }
    n
}

#[verifier::rlimit(100)]
fn parse_str_header_wide(bytes: &Vec<u8>, pos: usize, b0: u8) -> (r: Option<(usize, usize)>)
    requires
        pos < bytes@.len(),
        b0 == bytes@[pos as int],
        b0 == 0xda || b0 == 0xdb,
    ensures
        r matches Some(p) ==> {
            &&& (p.0 as int) < 0x100000000
            &&& pos < p.1 <= bytes@.len()
            &&& bytes_at(bytes@, pos as int, str_header(p.0 as int))
            &&& p.1 == pos + str_header(p.0 as int).len()
        },
        forall|m: int|
            0 <= m < 0x100000000 && bytes_at(bytes@, pos as int, #[trigger] str_header(m)) ==> (
            r matches Some(p) && p.0 == m && p.1 == pos + str_header(m).len()),
{
    if b0 == 0xda {
        if bytes.len() - pos < 3 {
            proof {
                assert forall|m: int|
                    0 <= m < 0x100000000 && bytes_at(
                        bytes@,
                        pos as int,
                        #[trigger] str_header(m),
                    ) implies false by {
                    lemma_bytes_at_index(bytes@, pos as int, str_header(m), 0);
                }
            }
            return None;
        }
        let n32 = read_be16(bytes, pos + 1);
        let n = n32 as usize;
        proof {
            assert forall|m: int|
                0 <= m < 0x100000000 && bytes_at(
                    bytes@,
                    pos as int,
                    #[trigger] str_header(m),
                ) implies 256 <= m < 65536 && m == n as int by {
                lemma_bytes_at_index(bytes@, pos as int, str_header(m), 0);
                lemma_bytes_at_concat(bytes@, pos as int, seq![0xdau8], be16(m));
                assert(bytes@.subrange(pos as int + 1, pos as int + 3) =~= be16(m));
                lemma_be16_reconstruct(m);
                lemma_bytes_at_index(bytes@, pos as int + 1, be16(m), 0);
                lemma_bytes_at_index(bytes@, pos as int + 1, be16(m), 1);
            }
        }
        if n < 256 {
            return None;
        }
        proof {
            assert(str_header(n as int) =~= seq![0xdau8] + be16(n as int));
            lemma_bytes_at_concat(bytes@, pos as int, seq![0xdau8], be16(n as int));
            assert(bytes@.subrange(pos as int, pos as int + 1) =~= seq![0xdau8]);
        }
        return Some((n, pos + 3));
    }
    if b0 == 0xdb {
        if bytes.len() - pos < 5 {
            proof {
                assert forall|m: int|
                    0 <= m < 0x100000000 && bytes_at(
                        bytes@,
                        pos as int,
                        #[trigger] str_header(m),
                    ) implies false by {
                    lemma_bytes_at_index(bytes@, pos as int, str_header(m), 0);
                }
            }
            return None;
        }
        let n32 = read_be32(bytes, pos + 1);
        let n = n32 as usize;
        proof {
            assert forall|m: int|
                0 <= m < 0x100000000 && bytes_at(
                    bytes@,
                    pos as int,
                    #[trigger] str_header(m),
                ) implies 65536 <= m && m == n as int by {
                lemma_bytes_at_index(bytes@, pos as int, str_header(m), 0);
                lemma_bytes_at_concat(bytes@, pos as int, seq![0xdbu8], be32(m));
                assert(bytes@.subrange(pos as int + 1, pos as int + 5) =~= be32(m));
                lemma_be32_reconstruct(m);
                lemma_bytes_at_index(bytes@, pos as int + 1, be32(m), 0);
                lemma_bytes_at_index(bytes@, pos as int + 1, be32(m), 1);
                lemma_bytes_at_index(bytes@, pos as int + 1, be32(m), 2);
                lemma_bytes_at_index(bytes@, pos as int + 1, be32(m), 3);
            }
        }
        if n < 65536 {
            return None;
        }
        proof {
            assert(str_header(n as int) =~= seq![0xdbu8] + be32(n as int));
            lemma_bytes_at_concat(bytes@, pos as int, seq![0xdbu8], be32(n as int));
            assert(bytes@.subrange(pos as int, pos as int + 1) =~= seq![0xdbu8]);
        }
        return Some((n, pos + 5));
    }
    proof {
        assert forall|m: int|
            0 <= m < 0x100000000 && bytes_at(
                bytes@,
                pos as int,
                #[trigger] str_header(m),
            ) implies false by {
            lemma_bytes_at_index(bytes@, pos as int, str_header(m), 0);
        }
    }
    None
}

#[verifier::rlimit(100)]
fn parse_str_header(bytes: &Vec<u8>, pos: usize) -> (r: Option<(usize, usize)>)
    requires
        pos <= bytes@.len(),
    ensures
        r matches Some(p) ==> {
            &&& (p.0 as int) < 0x100000000
            &&& pos < p.1 <= bytes@.len()
            &&& bytes_at(bytes@, pos as int, str_header(p.0 as int))
            &&& p.1 == pos + str_header(p.0 as int).len()
        },
        forall|m: int|
            0 <= m < 0x100000000 && bytes_at(bytes@, pos as int, #[trigger] str_header(m)) ==> (
            r matches Some(p) && p.0 == m && p.1 == pos + str_header(m).len()),
{
    if pos >= bytes.len() {
        proof {
            assert forall|m: int|
                0 <= m < 0x100000000 && bytes_at(
                    bytes@,
                    pos as int,
                    #[trigger] str_header(m),
                ) implies false by {
                assert(str_header(m).len() >= 1);
            }
        }
        return None;
    }
    let b0 = bytes[pos];
    if 0xa0 <= b0 && b0 <= 0xbf {
        let n = (b0 - 0xa0) as usize;
        proof {
            assert(str_header(n as int) =~= seq![b0]);
            assert(bytes@.subrange(pos as int, pos as int + 1) =~= seq![b0]);
            assert forall|m: int|
                0 <= m < 0x100000000 && bytes_at(
                    bytes@,
                    pos as int,
                    #[trigger] str_header(m),
                ) implies m == n as int by {
                lemma_bytes_at_index(bytes@, pos as int, str_header(m), 0);
            }
        }
        return Some((n, pos + 1));
    }
    if b0 == 0xd9 {
        if bytes.len() - pos < 2 {
            proof {
                assert forall|m: int|
                    0 <= m < 0x100000000 && bytes_at(
                        bytes@,
                        pos as int,
                        #[trigger] str_header(m),
                    ) implies false by {
                    lemma_bytes_at_index(bytes@, pos as int, str_header(m), 0);
                }
            }
            return None;
        }
        let n = bytes[pos + 1] as usize;
        if n < 32 {
            proof {
                assert forall|m: int|
                    0 <= m < 0x100000000 && bytes_at(
                        bytes@,
                        pos as int,
                        #[trigger] str_header(m),
                    ) implies false by {
                    lemma_bytes_at_index(bytes@, pos as int, str_header(m), 0);
                    lemma_bytes_at_index(bytes@, pos as int, str_header(m), 1);
                }
            }
            return None;
        }
        proof {
            assert(str_header(n as int) =~= seq![0xd9u8, n as u8]);
            assert(bytes@.subrange(pos as int, pos as int + 2) =~= seq![
                0xd9u8,
                bytes@[pos as int + 1],
            ]);
            assert forall|m: int|
                0 <= m < 0x100000000 && bytes_at(
                    bytes@,
                    pos as int,
                    #[trigger] str_header(m),
                ) implies m == n as int by {
                lemma_bytes_at_index(bytes@, pos as int, str_header(m), 0);
                lemma_bytes_at_index(bytes@, pos as int, str_header(m), 1);
            }
        }
        return Some((n, pos + 2));
    }
    if b0 == 0xda || b0 == 0xdb {
        return parse_str_header_wide(bytes, pos, b0);
    }
    proof {
        assert forall|m: int|
            0 <= m < 0x100000000 && bytes_at(
                bytes@,
                pos as int,
                #[trigger] str_header(m),
            ) implies false by {
            lemma_bytes_at_index(bytes@, pos as int, str_header(m), 0);
        }
    }
    None
}

#[verifier::rlimit(60)]
fn parse_bin_header(bytes: &Vec<u8>, pos: usize) -> (r: Option<(usize, usize)>)
    requires
        pos <= bytes@.len(),
    ensures
        r matches Some(p) ==> {
            &&& (p.0 as int) < 0x100000000
            &&& pos < p.1 <= bytes@.len()
            &&& bytes_at(bytes@, pos as int, bin_header(p.0 as int))
            &&& p.1 == pos + bin_header(p.0 as int).len()
        },
        forall|m: int|
            0 <= m < 0x100000000 && bytes_at(bytes@, pos as int, #[trigger] bin_header(m)) ==> (
            r matches Some(p) && p.0 == m && p.1 == pos + bin_header(m).len()),
{
    if pos >= bytes.len() {
        proof {
            assert forall|m: int|
                0 <= m < 0x100000000 && bytes_at(
                    bytes@,
                    pos as int,
                    #[trigger] bin_header(m),
                ) implies false by {
                assert(bin_header(m).len() >= 1);
            }
        }
        return None;
    }
    let b0 = bytes[pos];
    if b0 == 0xc4 {
        if bytes.len() - pos < 2 {
            proof {
                assert forall|m: int|
                    0 <= m < 0x100000000 && bytes_at(
                        bytes@,
                        pos as int,
                        #[trigger] bin_header(m),
                    ) implies false by {
                    lemma_bytes_at_index(bytes@, pos as int, bin_header(m), 0);
                }
            }
            return None;
        }
        let n = bytes[pos + 1] as usize;
        proof {
            assert(bin_header(n as int) =~= seq![0xc4u8, n as u8]);
            assert(bytes@.subrange(pos as int, pos as int + 2) =~= seq![
                0xc4u8,
                bytes@[pos as int + 1],
            ]);
            assert forall|m: int|
                0 <= m < 0x100000000 && bytes_at(
                    bytes@,
                    pos as int,
                    #[trigger] bin_header(m),
                ) implies m == n as int by {
                lemma_bytes_at_index(bytes@, pos as int, bin_header(m), 0);
                lemma_bytes_at_index(bytes@, pos as int, bin_header(m), 1);
            }
        }
        return Some((n, pos + 2));
    }
    if b0 == 0xc5 {
        if bytes.len() - pos < 3 {
            proof {
                assert forall|m: int|
                    0 <= m < 0x100000000 && bytes_at(
                        bytes@,
                        pos as int,
                        #[trigger] bin_header(m),
                    ) implies false by {
                    lemma_bytes_at_index(bytes@, pos as int, bin_header(m), 0);
                }
            }
            return None;
        }
        let n32 = read_be16(bytes, pos + 1);
        let n = n32 as usize;
        proof {
            assert forall|m: int|
                0 <= m < 0x100000000 && bytes_at(
                    bytes@,
                    pos as int,
                    #[trigger] bin_header(m),
                ) implies 256 <= m < 65536 && m == n as int by {
                lemma_bytes_at_index(bytes@, pos as int, bin_header(m), 0);
                lemma_bytes_at_concat(bytes@, pos as int, seq![0xc5u8], be16(m));
                assert(bytes@.subrange(pos as int + 1, pos as int + 3) =~= be16(m));
                lemma_be16_reconstruct(m);
                lemma_bytes_at_index(bytes@, pos as int + 1, be16(m), 0);
                lemma_bytes_at_index(bytes@, pos as int + 1, be16(m), 1);
            }
        }
        if n < 256 {
            return None;
        }
        proof {
            assert(bin_header(n as int) =~= seq![0xc5u8] + be16(n as int));
            lemma_bytes_at_concat(bytes@, pos as int, seq![0xc5u8], be16(n as int));
            assert(bytes@.subrange(pos as int, pos as int + 1) =~= seq![0xc5u8]);
        }
        return Some((n, pos + 3));
    }
    if b0 == 0xc6 {
        if bytes.len() - pos < 5 {
            proof {
                assert forall|m: int|
                    0 <= m < 0x100000000 && bytes_at(
                        bytes@,
                        pos as int,
                        #[trigger] bin_header(m),
                    ) implies false by {
                    lemma_bytes_at_index(bytes@, pos as int, bin_header(m), 0);
                }
            }
            return None;
        }
        let n32 = read_be32(bytes, pos + 1);
        let n = n32 as usize;
        proof {
            assert forall|m: int|
                0 <= m < 0x100000000 && bytes_at(
                    bytes@,
                    pos as int,
                    #[trigger] bin_header(m),
                ) implies 65536 <= m && m == n as int by {
                lemma_bytes_at_index(bytes@, pos as int, bin_header(m), 0);
                lemma_bytes_at_concat(bytes@, pos as int, seq![0xc6u8], be32(m));
                assert(bytes@.subrange(pos as int + 1, pos as int + 5) =~= be32(m));
                lemma_be32_reconstruct(m);
                lemma_bytes_at_index(bytes@, pos as int + 1, be32(m), 0);
                lemma_bytes_at_index(bytes@, pos as int + 1, be32(m), 1);
                lemma_bytes_at_index(bytes@, pos as int + 1, be32(m), 2);
                lemma_bytes_at_index(bytes@, pos as int + 1, be32(m), 3);
            }
        }
        if n < 65536 {
            return None;
        }
        proof {
            assert(bin_header(n as int) =~= seq![0xc6u8] + be32(n as int));
            lemma_bytes_at_concat(bytes@, pos as int, seq![0xc6u8], be32(n as int));
            assert(bytes@.subrange(pos as int, pos as int + 1) =~= seq![0xc6u8]);
        }
        return Some((n, pos + 5));
    }
    proof {
        assert forall|m: int|
            0 <= m < 0x100000000 && bytes_at(
                bytes@,
                pos as int,
                #[trigger] bin_header(m),
            ) implies false by {
            lemma_bytes_at_index(bytes@, pos as int, bin_header(m), 0);
        }
    }
    None
}

#[verifier::rlimit(60)]
fn parse_arr_header(bytes: &Vec<u8>, pos: usize) -> (r: Option<(usize, usize)>)
    requires
        pos <= bytes@.len(),
    ensures
        r matches Some(p) ==> {
            &&& (p.0 as int) < 0x100000000
            &&& pos < p.1 <= bytes@.len()
            &&& bytes_at(bytes@, pos as int, arr_header(p.0 as int))
            &&& p.1 == pos + arr_header(p.0 as int).len()
        },
        forall|m: int|
            0 <= m < 0x100000000 && bytes_at(bytes@, pos as int, #[trigger] arr_header(m)) ==> (
            r matches Some(p) && p.0 == m && p.1 == pos + arr_header(m).len()),
{
    if pos >= bytes.len() {
        proof {
            assert forall|m: int|
                0 <= m < 0x100000000 && bytes_at(
                    bytes@,
                    pos as int,
                    #[trigger] arr_header(m),
                ) implies false by {
                assert(arr_header(m).len() >= 1);
            }
        }
        return None;
    }
    let b0 = bytes[pos];
    if 0x90 <= b0 && b0 <= 0x9f {
        let n = (b0 - 0x90) as usize;
        proof {
            assert(arr_header(n as int) =~= seq![b0]);
            assert(bytes@.subrange(pos as int, pos as int + 1) =~= seq![b0]);
            assert forall|m: int|
                0 <= m < 0x100000000 && bytes_at(
                    bytes@,
                    pos as int,
                    #[trigger] arr_header(m),
                ) implies m == n as int by {
                lemma_bytes_at_index(bytes@, pos as int, arr_header(m), 0);
            }
        }
        return Some((n, pos + 1));
    }
    if b0 == 0xdc {
        if bytes.len() - pos < 3 {
            proof {
                assert forall|m: int|
                    0 <= m < 0x100000000 && bytes_at(
                        bytes@,
                        pos as int,
                        #[trigger] arr_header(m),
                    ) implies false by {
                    lemma_bytes_at_index(bytes@, pos as int, arr_header(m), 0);
                }
            }
            return None;
        }
        let n32 = read_be16(bytes, pos + 1);
        let n = n32 as usize;
        proof {
            assert forall|m: int|
                0 <= m < 0x100000000 && bytes_at(
                    bytes@,
                    pos as int,
                    #[trigger] arr_header(m),
                ) implies 16 <= m < 65536 && m == n as int by {
                lemma_bytes_at_index(bytes@, pos as int, arr_header(m), 0);
                lemma_bytes_at_concat(bytes@, pos as int, seq![0xdcu8], be16(m));
                assert(bytes@.subrange(pos as int + 1, pos as int + 3) =~= be16(m));
                lemma_be16_reconstruct(m);
                lemma_bytes_at_index(bytes@, pos as int + 1, be16(m), 0);
                lemma_bytes_at_index(bytes@, pos as int + 1, be16(m), 1);
            }
        }
        if n < 16 {
            return None;
        }
        proof {
            assert(arr_header(n as int) =~= seq![0xdcu8] + be16(n as int));
            lemma_bytes_at_concat(bytes@, pos as int, seq![0xdcu8], be16(n as int));
            assert(bytes@.subrange(pos as int, pos as int + 1) =~= seq![0xdcu8]);
        }
        return Some((n, pos + 3));
    }
    if b0 == 0xdd {
        if bytes.len() - pos < 5 {
            proof {
                assert forall|m: int|
                    0 <= m < 0x100000000 && bytes_at(
                        bytes@,
                        pos as int,
                        #[trigger] arr_header(m),
                    ) implies false by {
                    lemma_bytes_at_index(bytes@, pos as int, arr_header(m), 0);
                }
            }
            return None;
        }
        let n32 = read_be32(bytes, pos + 1);
        let n = n32 as usize;
        proof {
            assert forall|m: int|
                0 <= m < 0x100000000 && bytes_at(
                    bytes@,
                    pos as int,
                    #[trigger] arr_header(m),
                ) implies 65536 <= m && m == n as int by {
                lemma_bytes_at_index(bytes@, pos as int, arr_header(m), 0);
                lemma_bytes_at_concat(bytes@, pos as int, seq![0xddu8], be32(m));
                assert(bytes@.subrange(pos as int + 1, pos as int + 5) =~= be32(m));
                lemma_be32_reconstruct(m);
                lemma_bytes_at_index(bytes@, pos as int + 1, be32(m), 0);
                lemma_bytes_at_index(bytes@, pos as int + 1, be32(m), 1);
                lemma_bytes_at_index(bytes@, pos as int + 1, be32(m), 2);
                lemma_bytes_at_index(bytes@, pos as int + 1, be32(m), 3);
            }
        }
        if n < 65536 {
            return None;
        }
        proof {
            assert(arr_header(n as int) =~= seq![0xddu8] + be32(n as int));
            lemma_bytes_at_concat(bytes@, pos as int, seq![0xddu8], be32(n as int));
            assert(bytes@.subrange(pos as int, pos as int + 1) =~= seq![0xddu8]);
        }
        return Some((n, pos + 5));
    }
    proof {
        assert forall|m: int|
            0 <= m < 0x100000000 && bytes_at(
                bytes@,
                pos as int,
                #[trigger] arr_header(m),
            ) implies false by {
            lemma_bytes_at_index(bytes@, pos as int, arr_header(m), 0);
        }
    }
    None
}

/// Recognizes one expected byte, such as a fixed map header.
fn expect_byte(bytes: &Vec<u8>, pos: usize, b: u8) -> (r: Option<usize>)
    requires
        pos <= bytes@.len(),
    ensures
        r matches Some(end) ==> end == pos + 1 && pos < bytes@.len() && bytes@[pos as int] == b,
        (pos < bytes@.len() && bytes@[pos as int] == b) ==> r is Some,
{
    if pos >= bytes.len() {
        return None;
    }
    if bytes[pos] == b {
        Some(pos + 1)
    } else {
        None
    }
}

fn copy_range(bytes: &Vec<u8>, pos: usize, n: usize) -> (r: Vec<u8>)
    requires
        pos + n <= bytes@.len(),
    ensures
        r@ == bytes@.subrange(pos as int, pos as int + n as int),
{
    let _total: usize = bytes.len();
    let mut r: Vec<u8> = Vec::new();
    let mut i: usize = 0;
    while i < n
        invariant
            i <= n,
            pos + n <= bytes@.len(),
            bytes@.len() <= usize::MAX,
            r@ == bytes@.subrange(pos as int, pos as int + i as int),
        decreases n - i,
    {
        r.push(bytes[pos + i]);
        proof {
            assert(r@ =~= bytes@.subrange(pos as int, pos as int + i as int + 1));
        }
        i += 1;
    }
    r
}

fn bytes_eq(a: &Vec<u8>, bytes: &Vec<u8>, pos: usize, n: usize) -> (r: bool)
    requires
        pos + n <= bytes@.len(),
        a@.len() == n,
    ensures
        r == (a@ == bytes@.subrange(pos as int, pos as int + n as int)),
{
    let _total: usize = bytes.len();
    let mut i: usize = 0;
    while i < n
        invariant
            i <= n,
            pos + n <= bytes@.len(),
            bytes@.len() <= usize::MAX,
            a@.len() == n,
            forall|k: int| 0 <= k < i ==> a@[k] == bytes@[pos + k],
        decreases n - i,
    {
        if a[i] != bytes[pos + i] {
            proof {
                let sub = bytes@.subrange(pos as int, pos as int + n as int);
                assert(sub[i as int] == bytes@[pos + i as int]);
            }
            return false;
        }
        i += 1;
    }
    proof {
        assert(a@ =~= bytes@.subrange(pos as int, pos as int + n as int));
    }
    true
}

#[verifier::rlimit(60)]
fn parse_str(bytes: &Vec<u8>, pos: usize) -> (r: Option<(String, usize)>)
    requires
        pos <= bytes@.len(),
    ensures
        r matches Some(p) ==> {
            &&& str_encodable(p.0@)
            &&& pos < p.1 <= bytes@.len()
            &&& bytes_at(bytes@, pos as int, enc_str(p.0@))
            &&& p.1 == pos + enc_str(p.0@).len()
        },
        forall|t: Seq<char>|
            str_encodable(t) && bytes_at(bytes@, pos as int, #[trigger] enc_str(t)) ==> (
            r matches Some(p) && p.0@ == t && p.1 == pos + enc_str(t).len()),
{
    let _total: usize = bytes.len();
    let h = parse_str_header(bytes, pos);
    if h.is_none() {
        proof {
            assert forall|t: Seq<char>|
                str_encodable(t) && bytes_at(bytes@, pos as int, #[trigger] enc_str(t)) implies false by {
                lemma_bytes_at_concat(
                    bytes@,
                    pos as int,
                    str_header(encode_utf8(t).len() as int),
                    encode_utf8(t),
                );
            }
        }
        return None;
    }
    let (n, hend) = h.unwrap();
    if bytes.len() - hend < n {
        proof {
            assert forall|t: Seq<char>|
                str_encodable(t) && bytes_at(bytes@, pos as int, #[trigger] enc_str(t)) implies false by {
                lemma_bytes_at_concat(
                    bytes@,
                    pos as int,
                    str_header(encode_utf8(t).len() as int),
                    encode_utf8(t),
                );
            }
        }
        return None;
    }
    let content = copy_range(bytes, hend, n);
    let s = utf8_to_string(content);
    match s {
        Some(s) => {
            proof {
                decode_utf8_encode_utf8(bytes@.subrange(hend as int, hend as int + n as int));
                assert(encode_utf8(s@) == bytes@.subrange(hend as int, hend as int + n as int));
                lemma_bytes_at_concat(bytes@, pos as int, str_header(n as int), encode_utf8(s@));
                assert(bytes@.subrange(hend as int, hend as int + n as int) =~= bytes@.subrange(
                    hend as int,
                    hend as int + encode_utf8(s@).len() as int,
                ));
                assert(bytes_at(bytes@, pos as int, enc_str(s@)));
                assert forall|t: Seq<char>|
                    str_encodable(t) && bytes_at(
                        bytes@,
                        pos as int,
                        #[trigger] enc_str(t),
                    ) implies s@ == t by {
                    lemma_bytes_at_concat(
                        bytes@,
                        pos as int,
                        str_header(encode_utf8(t).len() as int),
                        encode_utf8(t),
                    );
                    assert(bytes@.subrange(hend as int, hend as int + n as int) =~= encode_utf8(t));
                    encode_utf8_decode_utf8(t);
                }
            }
            Some((s, hend + n))
        },
        None => {
            proof {
                assert forall|t: Seq<char>|
                    str_encodable(t) && bytes_at(
                        bytes@,
                        pos as int,
                        #[trigger] enc_str(t),
                    ) implies false by {
                    lemma_bytes_at_concat(
                        bytes@,
                        pos as int,
                        str_header(encode_utf8(t).len() as int),
                        encode_utf8(t),
                    );
                    assert(bytes@.subrange(hend as int, hend as int + n as int) =~= encode_utf8(t));
                    encode_utf8_valid_utf8(t);
                }
            }
            None
        },
    }
}

/// Recognizes one fixed field name at `pos`.
#[verifier::rlimit(60)]
fn parse_key(bytes: &Vec<u8>, pos: usize, key: &str) -> (r: Option<usize>)
    requires
        pos <= bytes@.len(),
        str_encodable(key@),
    ensures
        r matches Some(end) ==> {
            &&& bytes_at(bytes@, pos as int, enc_str(key@))
            &&& end == pos + enc_str(key@).len()
            &&& pos < end <= bytes@.len()
        },
        bytes_at(bytes@, pos as int, enc_str(key@)) ==> r is Some,
{
    let kb = key.as_bytes_vec();
    let h = parse_str_header(bytes, pos);
    if h.is_none() {
        proof {
            if bytes_at(bytes@, pos as int, enc_str(key@)) {
                lemma_bytes_at_concat(
                    bytes@,
                    pos as int,
                    str_header(encode_utf8(key@).len() as int),
                    encode_utf8(key@),
                );
            }
        }
        return None;
    }
    let (n, hend) = h.unwrap();
    proof {
        if bytes_at(bytes@, pos as int, enc_str(key@)) {
            lemma_bytes_at_concat(
                bytes@,
                pos as int,
                str_header(encode_utf8(key@).len() as int),
                encode_utf8(key@),
            );
        }
    }
    if n != kb.len() {
        return None;
    }
    if bytes.len() - hend < n {
        return None;
    }
    if bytes_eq(&kb, bytes, hend, n) {
        proof {
            lemma_bytes_at_concat(bytes@, pos as int, str_header(n as int), encode_utf8(key@));
            assert(bytes@.subrange(hend as int, hend as int + n as int) =~= bytes@.subrange(
                hend as int,
                hend as int + encode_utf8(key@).len() as int,
            ));
            assert(bytes_at(bytes@, pos as int, enc_str(key@)));
        }
        Some(hend + n)
    } else {
        None
    }
}

#[verifier::rlimit(60)]
fn parse_bin(bytes: &Vec<u8>, pos: usize) -> (r: Option<(Vec<u8>, usize)>)
    requires
        pos <= bytes@.len(),
    ensures
        r matches Some(p) ==> {
            &&& bin_encodable(p.0@)
            &&& pos < p.1 <= bytes@.len()
            &&& bytes_at(bytes@, pos as int, enc_bin(p.0@))
            &&& p.1 == pos + enc_bin(p.0@).len()
        },
        forall|bb: Seq<u8>|
            bin_encodable(bb) && bytes_at(bytes@, pos as int, #[trigger] enc_bin(bb)) ==> (
            r matches Some(p) && p.0@ == bb && p.1 == pos + enc_bin(bb).len()),
{
    let h = parse_bin_header(bytes, pos);
    if h.is_none() {
        proof {
            assert forall|bb: Seq<u8>|
                bin_encodable(bb) && bytes_at(bytes@, pos as int, #[trigger] enc_bin(bb)) implies false by {
                lemma_bytes_at_concat(bytes@, pos as int, bin_header(bb.len() as int), bb);
            }
        }
        return None;
    }
    let (n, hend) = h.unwrap();
    if bytes.len() - hend < n {
        proof {
            assert forall|bb: Seq<u8>|
                bin_encodable(bb) && bytes_at(bytes@, pos as int, #[trigger] enc_bin(bb)) implies false by {
                lemma_bytes_at_concat(bytes@, pos as int, bin_header(bb.len() as int), bb);
            }
        }
        return None;
    }
    let content = copy_range(bytes, hend, n);
    proof {
        lemma_bytes_at_concat(bytes@, pos as int, bin_header(n as int), content@);
        assert(bytes_at(bytes@, pos as int, enc_bin(content@)));
        assert forall|bb: Seq<u8>|
            bin_encodable(bb) && bytes_at(bytes@, pos as int, #[trigger] enc_bin(bb)) implies content@
            == bb by {
            lemma_bytes_at_concat(bytes@, pos as int, bin_header(bb.len() as int), bb);
            assert(bytes@.subrange(hend as int, hend as int + n as int) =~= bb);
        }
    }
    Some((content, hend + n))
}

#[verifier::rlimit(100)]
fn parse_args(bytes: &Vec<u8>, pos: usize) -> (r: Option<(Vec<Vec<u8>>, usize)>)
    requires
        pos <= bytes@.len(),
    ensures
        r matches Some(p) ==> {
            &&& args_encodable(p.0.deep_view())
            &&& pos < p.1 <= bytes@.len()
            &&& bytes_at(bytes@, pos as int, enc_args(p.0.deep_view()))
            &&& p.1 == pos + enc_args(p.0.deep_view()).len()
        },
        forall|xs: Seq<Seq<u8>>|
            args_encodable(xs) && bytes_at(bytes@, pos as int, #[trigger] enc_args(xs)) ==> (
            r matches Some(p) && p.0.deep_view() == xs && p.1 == pos + enc_args(xs).len()),
{
    let h = parse_arr_header(bytes, pos);
    if h.is_none() {
        proof {
            assert forall|xs: Seq<Seq<u8>>|
                args_encodable(xs) && bytes_at(
                    bytes@,
                    pos as int,
                    #[trigger] enc_args(xs),
                ) implies false by {
                lemma_bytes_at_concat(bytes@, pos as int, arr_header(xs.len() as int), enc_bins(xs));
            }
        }
        return None;
    }
    let (count, hend) = h.unwrap();
    let mut vs: Vec<Vec<u8>> = Vec::new();
    let mut cur: usize = hend;
    let mut i: usize = 0;
    proof {
        assert(bytes@.subrange(hend as int, hend as int) =~= enc_bins(vs.deep_view()));
        assert(vs.deep_view() =~= Seq::<Seq<u8>>::empty());
        assert forall|xs: Seq<Seq<u8>>|
            args_encodable(xs) && bytes_at(bytes@, pos as int, #[trigger] enc_args(xs)) implies xs.len()
            == count && vs.deep_view() == xs.take(0) by {
            lemma_bytes_at_concat(bytes@, pos as int, arr_header(xs.len() as int), enc_bins(xs));
            assert(xs.take(0) =~= vs.deep_view());
        }
    }
    while i < count
        invariant
            i <= count,
            (count as int) < 0x100000000,
            pos <= bytes@.len(),
            bytes_at(bytes@, pos as int, arr_header(count as int)),
            hend == pos + arr_header(count as int).len(),
            pos < hend,
            hend <= cur <= bytes@.len(),
            vs@.len() == i,
            forall|k: int| 0 <= k < i ==> bin_encodable(#[trigger] vs.deep_view()[k]),
            bytes_at(bytes@, hend as int, enc_bins(vs.deep_view())),
            cur == hend + enc_bins(vs.deep_view()).len(),
            forall|xs: Seq<Seq<u8>>|
                args_encodable(xs) && bytes_at(bytes@, pos as int, #[trigger] enc_args(xs)) ==> (
                xs.len() == count && vs.deep_view() == xs.take(i as int)),
        decreases count - i,
    {
        let b = parse_bin(bytes, cur);
        match b {
            None => {
                proof {
                    assert forall|xs: Seq<Seq<u8>>|
                        args_encodable(xs) && bytes_at(
                            bytes@,
                            pos as int,
                            #[trigger] enc_args(xs),
                        ) implies false by {
                        lemma_bytes_at_concat(
                            bytes@,
                            pos as int,
                            arr_header(xs.len() as int),
                            enc_bins(xs),
                        );
                        lemma_enc_bins_split(xs, i as int);
                        lemma_bytes_at_concat(
                            bytes@,
                            hend as int,
                            enc_bins(xs.take(i as int)),
                            enc_bins(xs.skip(i as int)),
                        );
                        assert(xs.skip(i as int).len() != 0);
                        assert(xs.skip(i as int)[0] == xs[i as int]);
                        lemma_bytes_at_concat(
                            bytes@,
                            cur as int,
                            enc_bin(xs[i as int]),
                            enc_bins(xs.skip(i as int).drop_first()),
                        );
                        assert(enc_bins(xs.skip(i as int)) == enc_bin(xs[i as int]) + enc_bins(
                            xs.skip(i as int).drop_first(),
                        ));
                        assert(bytes_at(bytes@, cur as int, enc_bin(xs[i as int])));
                        assert(bin_encodable(xs[i as int]));
                    }
                }
                return None;
            },
            Some((v, nend)) => {
                let ghost vv = v@;
                let ghost old_deep = vs.deep_view();
                proof {
                    assert(v.deep_view() =~= v@);
                    lemma_enc_bins_push(old_deep, vv);
                    lemma_bytes_at_concat(bytes@, hend as int, enc_bins(old_deep), enc_bin(vv));
                }
                vs.push(v);
                proof {
                    assert(vs@[i as int].deep_view() == vv);
                    assert(vs.deep_view() =~= old_deep.push(vv));
                    assert forall|xs: Seq<Seq<u8>>|
                        args_encodable(xs) && bytes_at(
                            bytes@,
                            pos as int,
                            #[trigger] enc_args(xs),
                        ) implies xs.len() == count && vs.deep_view() == xs.take(i as int + 1) by {
                        lemma_bytes_at_concat(
                            bytes@,
                            pos as int,
                            arr_header(xs.len() as int),
                            enc_bins(xs),
                        );
                        lemma_enc_bins_split(xs, i as int);
                        lemma_bytes_at_concat(
                            bytes@,
                            hend as int,
                            enc_bins(xs.take(i as int)),
                            enc_bins(xs.skip(i as int)),
                        );
                        assert(xs.skip(i as int).len() != 0);
                        assert(xs.skip(i as int)[0] == xs[i as int]);
                        lemma_bytes_at_concat(
                            bytes@,
                            cur as int,
                            enc_bin(xs[i as int]),
                            enc_bins(xs.skip(i as int).drop_first()),
                        );
                        assert(enc_bins(xs.skip(i as int)) == enc_bin(xs[i as int]) + enc_bins(
                            xs.skip(i as int).drop_first(),
                        ));
                        assert(bytes_at(bytes@, cur as int, enc_bin(xs[i as int])));
                        assert(bin_encodable(xs[i as int]));
                        assert(vv == xs[i as int]);
                        assert(vs.deep_view() =~= xs.take(i as int + 1));
                    }
                }
                cur = nend;
                i += 1;
            },
        }
    }
    proof {
        lemma_bytes_at_concat(bytes@, pos as int, arr_header(count as int), enc_bins(vs.deep_view()));
        assert(bytes_at(bytes@, pos as int, enc_args(vs.deep_view())));
        assert(vs.deep_view().len() == count);
        assert forall|xs: Seq<Seq<u8>>|
            args_encodable(xs) && bytes_at(bytes@, pos as int, #[trigger] enc_args(xs)) implies vs
            .deep_view() == xs by {
            assert(xs.take(i as int) =~= xs);
        }
    }
    Some((vs, cur))
}

/// The byte offsets of the five chunks of an encoded object identity.
proof fn lemma_oid_chunks(b: Seq<u8>, pos: int, o: ObjectIDView)
    requires
        bytes_at(b, pos, enc_object_id(o)),
    ensures
        ({
            let c0 = map_header(2);
            let k1 = enc_str("Name"@);
            let n1 = enc_str(o.name);
            let k2 = enc_str("Version"@);
            let n2 = enc_str(o.version);
            &&& bytes_at(b, pos, c0)
            &&& bytes_at(b, pos + c0.len(), k1)
            &&& bytes_at(b, pos + c0.len() + k1.len(), n1)
            &&& bytes_at(b, pos + c0.len() + k1.len() + n1.len(), k2)
            &&& bytes_at(b, pos + c0.len() + k1.len() + n1.len() + k2.len(), n2)
        }),
{
    let c0 = map_header(2);
    let k1 = enc_str("Name"@);
    let n1 = enc_str(o.name);
    let k2 = enc_str("Version"@);
    let n2 = enc_str(o.version);
    lemma_bytes_at_concat(b, pos, c0 + k1 + n1 + k2, n2);
    lemma_bytes_at_concat(b, pos, c0 + k1 + n1, k2);
    lemma_bytes_at_concat(b, pos, c0 + k1, n1);
    lemma_bytes_at_concat(b, pos, c0, k1);
}

#[verifier::rlimit(100)]
fn parse_object_id(bytes: &Vec<u8>, pos: usize) -> (r: Option<(ObjectID, usize)>)
    requires
        pos <= bytes@.len(),
    ensures
        r matches Some(p) ==> {
            &&& oid_encodable(p.0@)
            &&& pos < p.1 <= bytes@.len()
            &&& bytes_at(bytes@, pos as int, enc_object_id(p.0@))
            &&& p.1 == pos + enc_object_id(p.0@).len()
        },
        forall|o: ObjectIDView|
            oid_encodable(o) && bytes_at(bytes@, pos as int, #[trigger] enc_object_id(o)) ==> (
            r matches Some(p) && p.0@ == o && p.1 == pos + enc_object_id(o).len()),
{
    proof {
        lemma_keys_encodable();
        assert(map_header(2) =~= seq![0x82u8]);
    }
    let e0 = expect_byte(bytes, pos, 0x82);
    if e0.is_none() {
        proof {
            assert forall|o: ObjectIDView|
                oid_encodable(o) && bytes_at(
                    bytes@,
                    pos as int,
                    #[trigger] enc_object_id(o),
                ) implies false by {
                lemma_oid_chunks(bytes@, pos as int, o);
                lemma_bytes_at_index(bytes@, pos as int, map_header(2), 0);
            }
        }
        return None;
    }
    let p1 = e0.unwrap();
    proof {
        assert forall|o: ObjectIDView|
            oid_encodable(o) && bytes_at(
                bytes@,
                pos as int,
                #[trigger] enc_object_id(o),
            ) implies bytes_at(bytes@, p1 as int, enc_str("Name"@)) by {
            lemma_oid_chunks(bytes@, pos as int, o);
        }
    }
    let k1 = parse_key(bytes, p1, "Name");
    if k1.is_none() {
        return None;
    }
    let p2 = k1.unwrap();
    let name = parse_str(bytes, p2);
    if name.is_none() {
        proof {
            assert forall|o: ObjectIDView|
                oid_encodable(o) && bytes_at(
                    bytes@,
                    pos as int,
                    #[trigger] enc_object_id(o),
                ) implies false by {
                lemma_oid_chunks(bytes@, pos as int, o);
            }
        }
        return None;
    }
    let (name_s, p3) = name.unwrap();
    proof {
        assert forall|o: ObjectIDView|
            oid_encodable(o) && bytes_at(
                bytes@,
                pos as int,
                #[trigger] enc_object_id(o),
            ) implies name_s@ == o.name && bytes_at(bytes@, p3 as int, enc_str("Version"@)) by {
            lemma_oid_chunks(bytes@, pos as int, o);
        }
    }
    let k2 = parse_key(bytes, p3, "Version");
    if k2.is_none() {
        return None;
    }
    let p4 = k2.unwrap();
    let version = parse_str(bytes, p4);
    if version.is_none() {
        proof {
            assert forall|o: ObjectIDView|
                oid_encodable(o) && bytes_at(
                    bytes@,
                    pos as int,
                    #[trigger] enc_object_id(o),
                ) implies false by {
                lemma_oid_chunks(bytes@, pos as int, o);
            }
        }
        return None;
    }
    let (version_s, p5) = version.unwrap();
    let oid = ObjectID::from_parts(name_s, version_s);
    proof {
        assert(bytes@.subrange(pos as int, pos as int + 1) =~= seq![0x82u8]);
        assert(bytes_at(bytes@, pos as int, map_header(2)));
        lemma_bytes_at_concat(bytes@, pos as int, map_header(2), enc_str("Name"@));
        assert(bytes_at(bytes@, pos as int, map_header(2) + enc_str("Name"@)));
        lemma_bytes_at_concat(bytes@, pos as int, map_header(2) + enc_str("Name"@), enc_str(oid@.name));
        assert(bytes_at(bytes@, pos as int, map_header(2) + enc_str("Name"@) + enc_str(oid@.name)));
        lemma_bytes_at_concat(
            bytes@,
            pos as int,
            map_header(2) + enc_str("Name"@) + enc_str(oid@.name),
            enc_str("Version"@),
        );
        assert(bytes_at(bytes@, pos as int, map_header(2) + enc_str("Name"@) + enc_str(oid@.name) + enc_str("Version"@)));
        lemma_bytes_at_concat(
            bytes@,
            pos as int,
            map_header(2) + enc_str("Name"@) + enc_str(oid@.name) + enc_str("Version"@),
            enc_str(oid@.version),
        );
        assert(bytes_at(bytes@, pos as int, enc_object_id(oid@)));
        assert forall|o: ObjectIDView|
            oid_encodable(o) && bytes_at(
                bytes@,
                pos as int,
                #[trigger] enc_object_id(o),
            ) implies oid@ == o by {
            lemma_oid_chunks(bytes@, pos as int, o);
            assert(oid@ =~= o);
        }
    }
    Some((oid, p5))
}

/// Where each of the eleven chunks of an encoded request sits in `b`.
pub open spec fn req_chunks_at(b: Seq<u8>, x: RequestView) -> bool {
    let c0 = map_header(5);
    let k1 = enc_str("ID"@);
    let v1 = enc_str(x.id);
    let k2 = enc_str("Arguments"@);
    let v2 = enc_args(x.arguments);
    let k3 = enc_str("Object"@);
    let v3 = enc_object_id(x.object);
    let k4 = enc_str("ReplyTo"@);
    let v4 = enc_str(x.reply_to);
    let k5 = enc_str("Method"@);
    let v5 = enc_str(x.method);
    &&& bytes_at(b, 0, c0)
    &&& bytes_at(b, c0.len() as int, k1)
    &&& bytes_at(b, (c0.len() + k1.len()) as int, v1)
    &&& bytes_at(b, (c0.len() + k1.len() + v1.len()) as int, k2)
    &&& bytes_at(b, (c0.len() + k1.len() + v1.len() + k2.len()) as int, v2)
    &&& bytes_at(b, (c0.len() + k1.len() + v1.len() + k2.len() + v2.len()) as int, k3)
    &&& bytes_at(b, (c0.len() + k1.len() + v1.len() + k2.len() + v2.len() + k3.len()) as int, v3)
    &&& bytes_at(
        b,
        (c0.len() + k1.len() + v1.len() + k2.len() + v2.len() + k3.len() + v3.len()) as int,
        k4,
    )
    &&& bytes_at(
        b,
        (c0.len() + k1.len() + v1.len() + k2.len() + v2.len() + k3.len() + v3.len()
            + k4.len()) as int,
        v4,
    )
    &&& bytes_at(
        b,
        (c0.len() + k1.len() + v1.len() + k2.len() + v2.len() + k3.len() + v3.len() + k4.len()
            + v4.len()) as int,
        k5,
    )
    &&& bytes_at(
        b,
        (c0.len() + k1.len() + v1.len() + k2.len() + v2.len() + k3.len() + v3.len() + k4.len()
            + v4.len() + k5.len()) as int,
        v5,
    )
    &&& b.len() == c0.len() + k1.len() + v1.len() + k2.len() + v2.len() + k3.len() + v3.len()
        + k4.len() + v4.len() + k5.len() + v5.len()
}

/// An encoded request lays out its chunks back to back.
proof fn lemma_req_chunks(b: Seq<u8>, x: RequestView)
    requires
        b == enc_request(x),
    ensures
        req_chunks_at(b, x),
{
    let c0 = map_header(5);
    let k1 = enc_str("ID"@);
    let v1 = enc_str(x.id);
    let k2 = enc_str("Arguments"@);
    let v2 = enc_args(x.arguments);
    let k3 = enc_str("Object"@);
    let v3 = enc_object_id(x.object);
    let k4 = enc_str("ReplyTo"@);
    let v4 = enc_str(x.reply_to);
    let k5 = enc_str("Method"@);
    let v5 = enc_str(x.method);
    assert(b.subrange(0, b.len() as int) =~= b);
    assert(bytes_at(b, 0, enc_request(x)));
    lemma_bytes_at_concat(b, 0, c0 + k1 + v1 + k2 + v2 + k3 + v3 + k4 + v4 + k5, v5);
    lemma_bytes_at_concat(b, 0, c0 + k1 + v1 + k2 + v2 + k3 + v3 + k4 + v4, k5);
    lemma_bytes_at_concat(b, 0, c0 + k1 + v1 + k2 + v2 + k3 + v3 + k4, v4);
    lemma_bytes_at_concat(b, 0, c0 + k1 + v1 + k2 + v2 + k3 + v3, k4);
    lemma_bytes_at_concat(b, 0, c0 + k1 + v1 + k2 + v2 + k3, v3);
    lemma_bytes_at_concat(b, 0, c0 + k1 + v1 + k2 + v2, k3);
    lemma_bytes_at_concat(b, 0, c0 + k1 + v1 + k2, v2);
    lemma_bytes_at_concat(b, 0, c0 + k1 + v1, k2);
    lemma_bytes_at_concat(b, 0, c0 + k1, v1);
    lemma_bytes_at_concat(b, 0, c0, k1);
}

/// Chunks laid out back to back re-assemble into one encoded request.
proof fn lemma_req_stitch(b: Seq<u8>, x: RequestView)
    requires
        req_chunks_at(b, x),
    ensures
        b == enc_request(x),
{
    let c0 = map_header(5);
    let k1 = enc_str("ID"@);
    let v1 = enc_str(x.id);
    let k2 = enc_str("Arguments"@);
    let v2 = enc_args(x.arguments);
    let k3 = enc_str("Object"@);
    let v3 = enc_object_id(x.object);
    let k4 = enc_str("ReplyTo"@);
    let v4 = enc_str(x.reply_to);
    let k5 = enc_str("Method"@);
    let v5 = enc_str(x.method);
    lemma_bytes_at_concat(b, 0, c0, k1);
    lemma_bytes_at_concat(b, 0, c0 + k1, v1);
    lemma_bytes_at_concat(b, 0, c0 + k1 + v1, k2);
    lemma_bytes_at_concat(b, 0, c0 + k1 + v1 + k2, v2);
    lemma_bytes_at_concat(b, 0, c0 + k1 + v1 + k2 + v2, k3);
    lemma_bytes_at_concat(b, 0, c0 + k1 + v1 + k2 + v2 + k3, v3);
    lemma_bytes_at_concat(b, 0, c0 + k1 + v1 + k2 + v2 + k3 + v3, k4);
    lemma_bytes_at_concat(b, 0, c0 + k1 + v1 + k2 + v2 + k3 + v3 + k4, v4);
    lemma_bytes_at_concat(b, 0, c0 + k1 + v1 + k2 + v2 + k3 + v3 + k4 + v4, k5);
    lemma_bytes_at_concat(b, 0, c0 + k1 + v1 + k2 + v2 + k3 + v3 + k4 + v4 + k5, v5);
    assert(bytes_at(b, 0, enc_request(x)));
    assert(b =~= enc_request(x));
}

/// Parses a request from a full payload: the payload must be exactly one
/// canonically encoded request, else nothing is returned. Together the two
/// conditions make decoding invert encoding: every encodable request is
/// recovered, field for field, from its own encoding, and anything decoded
/// re-encodes to the very same bytes.
#[verifier::rlimit(100)]
pub fn decode_request(bytes: &Vec<u8>) -> (r: Option<Request>)
    ensures
        r matches Some(req) ==> req_encodable(req@) && bytes@ == enc_request(req@),
        forall|x: RequestView|
            req_encodable(x) && bytes@ == #[trigger] enc_request(x) ==> (r matches Some(req)
                && req@ == x),
{
    proof {
        lemma_keys_encodable();
        assert(map_header(5) =~= seq![0x85u8]);
        assert forall|x: RequestView|
            req_encodable(x) && bytes@ == #[trigger] enc_request(x) implies req_chunks_at(
            bytes@,
            x,
        ) by {
            lemma_req_chunks(bytes@, x);
        }
    }
    let e0 = expect_byte(bytes, 0, 0x85);
    if e0.is_none() {
        proof {
            assert forall|x: RequestView|
                req_encodable(x) && bytes@ == #[trigger] enc_request(x) implies false by {
                lemma_bytes_at_index(bytes@, 0, map_header(5), 0);
            }
        }
        return None;
    }
    let p1 = e0.unwrap();
    let kid = parse_key(bytes, p1, "ID");
    if kid.is_none() {
        return None;
    }
    let p2 = kid.unwrap();
    let idr = parse_str(bytes, p2);
    if idr.is_none() {
        return None;
    }
    let (id_s, p3) = idr.unwrap();
    let kargs = parse_key(bytes, p3, "Arguments");
    if kargs.is_none() {
        return None;
    }
    let p4 = kargs.unwrap();
    let argsr = parse_args(bytes, p4);
    if argsr.is_none() {
        return None;
    }
    let (args_v, p5) = argsr.unwrap();
    let kobj = parse_key(bytes, p5, "Object");
    if kobj.is_none() {
        return None;
    }
    let p6 = kobj.unwrap();
    let oidr = parse_object_id(bytes, p6);
    if oidr.is_none() {
        return None;
    }
    let (oid, p7) = oidr.unwrap();
    let krt = parse_key(bytes, p7, "ReplyTo");
    if krt.is_none() {
        return None;
    }
    let p8 = krt.unwrap();
    let rtr = parse_str(bytes, p8);
    if rtr.is_none() {
        return None;
    }
    let (rt_s, p9) = rtr.unwrap();
    let km = parse_key(bytes, p9, "Method");
    if km.is_none() {
        return None;
    }
    let p10 = km.unwrap();
    let mr = parse_str(bytes, p10);
    if mr.is_none() {
        return None;
    }
    let (method_s, p11) = mr.unwrap();
    if p11 != bytes.len() {
        return None;
    }
    let req = Request::new(Id::from(id_s), args_v, oid, Id::from(rt_s), method_s);
    proof {
        assert(bytes@.subrange(0, 1) =~= seq![0x85u8]);
        assert(req_chunks_at(bytes@, req@));
        lemma_req_stitch(bytes@, req@);
        assert forall|x: RequestView|
            req_encodable(x) && bytes@ == #[trigger] enc_request(x) implies req@ == x by {
            assert(req@ =~= x);
        }
    }
    Some(req)
}

/// Where each of the seven chunks of an encoded response sits in `b`.
pub open spec fn resp_chunks_at(b: Seq<u8>, x: ResponseView) -> bool {
    let c0 = map_header(3);
    let k1 = enc_str("ID"@);
    let v1 = enc_str(x.id);
    let k2 = enc_str("Arguments"@);
    let v2 = enc_args(x.arguments);
    let k3 = enc_str("Error"@);
    let v3 = enc_str(x.error);
    &&& bytes_at(b, 0, c0)
    &&& bytes_at(b, c0.len() as int, k1)
    &&& bytes_at(b, (c0.len() + k1.len()) as int, v1)
    &&& bytes_at(b, (c0.len() + k1.len() + v1.len()) as int, k2)
    &&& bytes_at(b, (c0.len() + k1.len() + v1.len() + k2.len()) as int, v2)
    &&& bytes_at(b, (c0.len() + k1.len() + v1.len() + k2.len() + v2.len()) as int, k3)
    &&& bytes_at(b, (c0.len() + k1.len() + v1.len() + k2.len() + v2.len() + k3.len()) as int, v3)
    &&& b.len() == c0.len() + k1.len() + v1.len() + k2.len() + v2.len() + k3.len() + v3.len()
}

/// An encoded response lays out its chunks back to back.
proof fn lemma_resp_chunks(b: Seq<u8>, x: ResponseView)
    requires
        b == enc_response(x),
    ensures
        resp_chunks_at(b, x),
{
    let c0 = map_header(3);
    let k1 = enc_str("ID"@);
    let v1 = enc_str(x.id);
    let k2 = enc_str("Arguments"@);
    let v2 = enc_args(x.arguments);
    let k3 = enc_str("Error"@);
    let v3 = enc_str(x.error);
    assert(b.subrange(0, b.len() as int) =~= b);
    assert(bytes_at(b, 0, enc_response(x)));
    lemma_bytes_at_concat(b, 0, c0 + k1 + v1 + k2 + v2 + k3, v3);
    lemma_bytes_at_concat(b, 0, c0 + k1 + v1 + k2 + v2, k3);
    lemma_bytes_at_concat(b, 0, c0 + k1 + v1 + k2, v2);
    lemma_bytes_at_concat(b, 0, c0 + k1 + v1, k2);
    lemma_bytes_at_concat(b, 0, c0 + k1, v1);
    lemma_bytes_at_concat(b, 0, c0, k1);
}

/// Chunks laid out back to back re-assemble into one encoded response.
proof fn lemma_resp_stitch(b: Seq<u8>, x: ResponseView)
    requires
        resp_chunks_at(b, x),
    ensures
        b == enc_response(x),
{
    let c0 = map_header(3);
    let k1 = enc_str("ID"@);
    let v1 = enc_str(x.id);
    let k2 = enc_str("Arguments"@);
    let v2 = enc_args(x.arguments);
    let k3 = enc_str("Error"@);
    let v3 = enc_str(x.error);
    lemma_bytes_at_concat(b, 0, c0, k1);
    lemma_bytes_at_concat(b, 0, c0 + k1, v1);
    lemma_bytes_at_concat(b, 0, c0 + k1 + v1, k2);
    lemma_bytes_at_concat(b, 0, c0 + k1 + v1 + k2, v2);
    lemma_bytes_at_concat(b, 0, c0 + k1 + v1 + k2 + v2, k3);
    lemma_bytes_at_concat(b, 0, c0 + k1 + v1 + k2 + v2 + k3, v3);
    assert(bytes_at(b, 0, enc_response(x)));
    assert(b =~= enc_response(x));
}

/// Parses a response from a full payload, inverting [`encode_response`] the
/// same way [`decode_request`] inverts [`encode_request`].
#[verifier::rlimit(100)]
pub fn decode_response(bytes: &Vec<u8>) -> (r: Option<Response>)
    ensures
        r matches Some(resp) ==> resp_encodable(resp@) && bytes@ == enc_response(resp@),
        forall|x: ResponseView|
            resp_encodable(x) && bytes@ == #[trigger] enc_response(x) ==> (r matches Some(resp)
                && resp@ == x),
{
    proof {
        lemma_keys_encodable();
        assert(map_header(3) =~= seq![0x83u8]);
        assert forall|x: ResponseView|
            resp_encodable(x) && bytes@ == #[trigger] enc_response(x) implies resp_chunks_at(
            bytes@,
            x,
        ) by {
            lemma_resp_chunks(bytes@, x);
        }
    }
    let e0 = expect_byte(bytes, 0, 0x83);
    if e0.is_none() {
        proof {
            assert forall|x: ResponseView|
                resp_encodable(x) && bytes@ == #[trigger] enc_response(x) implies false by {
                lemma_bytes_at_index(bytes@, 0, map_header(3), 0);
            }
        }
        return None;
    }
    let p1 = e0.unwrap();
    let kid = parse_key(bytes, p1, "ID");
    if kid.is_none() {
        return None;
    }
    let p2 = kid.unwrap();
    let idr = parse_str(bytes, p2);
    if idr.is_none() {
        return None;
    }
    let (id_s, p3) = idr.unwrap();
    let kargs = parse_key(bytes, p3, "Arguments");
    if kargs.is_none() {
        return None;
    }
    let p4 = kargs.unwrap();
    let argsr = parse_args(bytes, p4);
    if argsr.is_none() {
        return None;
    }
    let (args_v, p5) = argsr.unwrap();
    let kerr = parse_key(bytes, p5, "Error");
    if kerr.is_none() {
        return None;
    }
    let p6 = kerr.unwrap();
    let er = parse_str(bytes, p6);
    if er.is_none() {
        return None;
    }
    let (err_s, p7) = er.unwrap();
    if p7 != bytes.len() {
        return None;
    }
    let resp = Response { id: Id::from(id_s), arguments: args_v, error: err_s };
    proof {
        assert(bytes@.subrange(0, 1) =~= seq![0x83u8]);
        assert(resp@ =~= (ResponseView {
            id: resp.id@,
            arguments: resp.arguments.deep_view(),
            error: resp.error@,
        }));
        assert(resp_chunks_at(bytes@, resp@));
        lemma_resp_stitch(bytes@, resp@);
        assert forall|x: ResponseView|
            resp_encodable(x) && bytes@ == #[trigger] enc_response(x) implies resp@ == x by {
            assert(resp@ =~= x);
        }
    }
    Some(resp)
}

/// Parses a handler-reported failure from a full payload, inverting
/// [`encode_remote_error`].
#[verifier::rlimit(100)]
pub fn decode_remote_error(bytes: &Vec<u8>) -> (r: Option<RemoteError>)
    ensures
        r matches Some(e) ==> str_encodable(e@) && bytes@ == enc_remote_error(e@),
        forall|m: Seq<char>|
            str_encodable(m) && bytes@ == #[trigger] enc_remote_error(m) ==> (r matches Some(e)
                && e@ == m),
{
    proof {
        lemma_keys_encodable();
        assert(map_header(1) =~= seq![0x81u8]);
        assert forall|m: Seq<char>|
            str_encodable(m) && bytes@ == #[trigger] enc_remote_error(m) implies {
            &&& bytes_at(bytes@, 0, map_header(1))
            &&& bytes_at(bytes@, map_header(1).len() as int, enc_str("Message"@))
            &&& bytes_at(
                bytes@,
                (map_header(1).len() + enc_str("Message"@).len()) as int,
                enc_str(m),
            )
            &&& bytes@.len() == map_header(1).len() + enc_str("Message"@).len() + enc_str(m).len()
        } by {
            assert(bytes@.subrange(0, bytes@.len() as int) =~= bytes@);
            assert(bytes_at(bytes@, 0, enc_remote_error(m)));
            lemma_bytes_at_concat(bytes@, 0, map_header(1) + enc_str("Message"@), enc_str(m));
            lemma_bytes_at_concat(bytes@, 0, map_header(1), enc_str("Message"@));
        }
    }
    let e0 = expect_byte(bytes, 0, 0x81);
    if e0.is_none() {
        proof {
            assert forall|m: Seq<char>|
                str_encodable(m) && bytes@ == #[trigger] enc_remote_error(m) implies false by {
                lemma_bytes_at_index(bytes@, 0, map_header(1), 0);
            }
        }
        return None;
    }
    let p1 = e0.unwrap();
    let kmsg = parse_key(bytes, p1, "Message");
    if kmsg.is_none() {
        return None;
    }
    let p2 = kmsg.unwrap();
    let mr = parse_str(bytes, p2);
    if mr.is_none() {
        return None;
    }
    let (msg_s, p3) = mr.unwrap();
    if p3 != bytes.len() {
        return None;
    }
    let e = RemoteError { message: msg_s };
    proof {
        assert(bytes@.subrange(0, 1) =~= seq![0x81u8]);
        assert(bytes_at(bytes@, 0, map_header(1)));
        lemma_bytes_at_concat(bytes@, 0, map_header(1), enc_str("Message"@));
        lemma_bytes_at_concat(bytes@, 0, map_header(1) + enc_str("Message"@), enc_str(e@));
        assert(bytes_at(bytes@, 0, enc_remote_error(e@)));
        assert(bytes@ =~= enc_remote_error(e@));
    }
    Some(e)
}

} // verus!
