//! Output shards: tensors behind a JSON header that says where each one lies.
//!
//! A shard is the length of its header in eight little-endian bytes, the header,
//! and then the bytes of all tensors, one after the other.

use vstd::prelude::*;
use vstd::string::{StrSliceExecFns, StringExecFns};
use vstd::utf8::encode_utf8;
use crate::text::{decimal, to_decimal};

verus! {

/// One tensor of an output shard.
pub struct OutTensor {
    pub name: String,
    pub dtype: String,
    pub shape: Vec<i64>,
    pub bytes: Vec<u8>,
}

/// What a reader of a tensor sees.
#[verifier::ext_equal]
pub struct Tensor {
    pub name: Seq<char>,
    pub dtype: Seq<char>,
    pub shape: Seq<i64>,
    pub bytes: Seq<u8>,
}

impl View for OutTensor {
    type V = Tensor;

    open spec fn view(&self) -> Tensor {
        Tensor {
            name: self.name@,
            dtype: self.dtype@,
            shape: self.shape@,
            bytes: self.bytes@,
        }
    }
}

/// How a signed number is written in decimal.
pub open spec fn signed_decimal(n: int) -> Seq<char> {
    if n < 0 {
        "-"@ + decimal((-n) as nat)
    } else {
        decimal(n as nat)
    }
}

/// The dimensions, separated by commas.
pub open spec fn dims_text(shape: Seq<i64>) -> Seq<char>
    decreases shape.len(),
{
    if shape.len() == 0 {
        Seq::empty()
    } else if shape.len() == 1 {
        signed_decimal(shape[0] as int)
    } else {
        dims_text(shape.drop_last()) + ","@ + signed_decimal(shape.last() as int)
    }
}

/// The header's entry for a tensor whose bytes begin at `off`.
pub open spec fn entry_text(t: Tensor, off: nat) -> Seq<char> {
    "\""@ + t.name + "\":{\"dtype\":\""@ + t.dtype + "\",\"shape\":["@ + dims_text(t.shape)
        + "],\"data_offsets\":["@ + decimal(off) + ","@ + decimal(off + t.bytes.len()) + "]}"@
}

/// Bytes of all tensors.
pub open spec fn data_len(tensors: Seq<OutTensor>) -> nat
    decreases tensors.len(),
{
    if tensors.len() == 0 {
        0
    } else {
        data_len(tensors.drop_last()) + tensors.last()@.bytes.len()
    }
}

/// The entries of all tensors, separated by commas.
pub open spec fn entries_text(tensors: Seq<OutTensor>) -> Seq<char>
    decreases tensors.len(),
{
    if tensors.len() == 0 {
        Seq::empty()
    } else {
        let front = tensors.drop_last();
        let entry = entry_text(tensors.last()@, data_len(front));
        if front.len() == 0 {
            entry
        } else {
            entries_text(front) + ","@ + entry
        }
    }
}

/// The header.
pub open spec fn header_text(tensors: Seq<OutTensor>) -> Seq<char> {
    "{"@ + entries_text(tensors) + "}"@
}

/// The bytes of all tensors, one after the other.
pub open spec fn data_of(tensors: Seq<OutTensor>) -> Seq<u8>
    decreases tensors.len(),
{
    if tensors.len() == 0 {
        Seq::empty()
    } else {
        data_of(tensors.drop_last()) + tensors.last()@.bytes
    }
}

/// The `k` low bytes of `n`, lowest first.
pub open spec fn le_bytes(n: nat, k: nat) -> Seq<u8>
    decreases k,
{
    if k == 0 {
        Seq::empty()
    } else {
        seq![(n % 256) as u8] + le_bytes(n / 256, (k - 1) as nat)
    }
}

/// The shard that holds `tensors`.
pub open spec fn shard_of(tensors: Seq<OutTensor>) -> Seq<u8> {
    let header = encode_utf8(header_text(tensors));
    le_bytes(header.len(), 8) + header + data_of(tensors)
}

/// The `k` low bytes of `n`, lowest first, behind what `out` holds.
pub fn push_le(out: &mut Vec<u8>, n: u64, k: usize)
    ensures
        final(out)@ == old(out)@ + le_bytes(n as nat, k as nat),
{
    let mut rest: u64 = n;
    let mut left: usize = k;
    assert(out@ + le_bytes(n as nat, k as nat) =~= old(out)@ + le_bytes(n as nat, k as nat));
    while left > 0
        invariant
            left <= k,
            out@ + le_bytes(rest as nat, left as nat) == old(out)@ + le_bytes(n as nat, k as nat),
        decreases left,
    {
        let ghost before = out@;
        out.push((rest % 256) as u8);
        proof {
            let tail = le_bytes((rest / 256) as nat, (left - 1) as nat);
            assert(out@ + tail =~= before + (seq![(rest % 256) as u8] + tail));
        }
        rest = rest / 256;
        left = left - 1;
    }
    assert(out@ =~= out@ + le_bytes(rest as nat, 0));
}

/// Appends all of `bytes` to `out`.
pub fn push_all(out: &mut Vec<u8>, bytes: &[u8])
    ensures
        final(out)@ == old(out)@ + bytes@,
{
    assert(out@ =~= old(out)@ + bytes@.take(0));
    for i in 0..bytes.len()
        invariant
            out@ == old(out)@ + bytes@.take(i as int),
    {
        out.push(bytes[i]);
        assert(out@ =~= old(out)@ + bytes@.take(i + 1));
    }
    assert(bytes@.take(bytes@.len() as int) =~= bytes@);
}

/// Appends a signed number in decimal.
fn push_signed(out: &mut String, n: i64)
    ensures
        final(out)@ == old(out)@ + signed_decimal(n as int),
{
    if n < 0 {
        let m: u128 = (-(n as i128)) as u128;
        let d: String = to_decimal(m);
        out.append("-");
        out.append(d.as_str());
        assert(out@ =~= old(out)@ + signed_decimal(n as int));
    } else {
        let d: String = to_decimal(n as u128);
        out.append(d.as_str());
    }
}

/// Appends the dimensions.
fn push_dims(out: &mut String, shape: &Vec<i64>)
    ensures
        final(out)@ == old(out)@ + dims_text(shape@),
{
    assert(out@ =~= old(out)@ + dims_text(shape@.take(0)));
    for i in 0..shape.len()
        invariant
            out@ == old(out)@ + dims_text(shape@.take(i as int)),
    {
        let ghost before = out@;
        if i > 0 {
            out.append(",");
        }
        push_signed(out, shape[i]);
        proof {
            let longer = shape@.take(i + 1);
            assert(longer.drop_last() =~= shape@.take(i as int));
            assert(longer.last() == shape@[i as int]);
            if i == 0 {
                assert(before =~= old(out)@ + Seq::<char>::empty());
            }
            assert(out@ =~= old(out)@ + dims_text(longer));
        }
    }
    assert(shape@.take(shape@.len() as int) =~= shape@);
}

/// Appends the header's entry for a tensor whose bytes begin at `off`.
fn push_entry(out: &mut String, t: &OutTensor, off: u128)
    requires
        off + t@.bytes.len() <= u128::MAX,
    ensures
        final(out)@ == old(out)@ + entry_text(t@, off as nat),
{
    let end: u128 = off + t.bytes.len() as u128;
    let from: String = to_decimal(off);
    let to: String = to_decimal(end);
    out.append("\"");
    out.append(t.name.as_str());
    out.append("\":{\"dtype\":\"");
    out.append(t.dtype.as_str());
    out.append("\",\"shape\":[");
    push_dims(out, &t.shape);
    out.append("],\"data_offsets\":[");
    out.append(from.as_str());
    out.append(",");
    out.append(to.as_str());
    out.append("]}");
    assert(out@ =~= old(out)@ + entry_text(t@, off as nat));
}

/// The header of a shard.
pub fn shard_header(tensors: &Vec<OutTensor>) -> (header: String)
    ensures
        header@ == header_text(tensors@),
{
    let mut header: String = String::from_str("{");
    let mut off: u128 = 0;
    assert(header@ =~= "{"@ + entries_text(tensors@.take(0)));
    for k in 0..tensors.len()
        invariant
            off == data_len(tensors@.take(k as int)),
            off <= k * usize::MAX,
            header@ == "{"@ + entries_text(tensors@.take(k as int)),
    {
        let ghost before = header@;
        let ghost longer = tensors@.take(k + 1);
        proof {
            assert(longer.drop_last() =~= tensors@.take(k as int));
            assert(longer.last() == tensors@[k as int]);
            assert(k * usize::MAX + usize::MAX == (k + 1) * usize::MAX) by (nonlinear_arith);
            assert((k + 1) * usize::MAX <= usize::MAX * usize::MAX) by (nonlinear_arith)
                requires
                    k + 1 <= usize::MAX,
            ;
            assert(usize::MAX * usize::MAX <= u128::MAX) by (nonlinear_arith)
                requires
                    usize::MAX <= 0xffff_ffff_ffff_ffff,
            ;
        }
        let n: usize = tensors[k].bytes.len();
        if k > 0 {
            header.append(",");
        }
        push_entry(&mut header, &tensors[k], off);
        off = off + n as u128;
        proof {
            if k == 0 {
                assert(before =~= "{"@ + Seq::<char>::empty());
            }
            assert(header@ =~= "{"@ + entries_text(longer));
        }
    }
    assert(tensors@.take(tensors@.len() as int) =~= tensors@);
    header.append("}");
    assert(header@ =~= header_text(tensors@));
    header
}

/// The bytes of a shard.
pub fn write_shard(tensors: &Vec<OutTensor>) -> (bytes: Vec<u8>)
    ensures
        bytes@ == shard_of(tensors@),
{
    let header: String = shard_header(tensors);
    let hb: Vec<u8> = header.as_str().as_bytes_vec();
    let mut out: Vec<u8> = Vec::new();
    push_le(&mut out, hb.len() as u64, 8);
    push_all(&mut out, hb.as_slice());
    let ghost front = out@;
    assert(front + data_of(tensors@.take(0)) =~= front);
    for k in 0..tensors.len()
        invariant
            out@ == front + data_of(tensors@.take(k as int)),
    {
        proof {
            let longer = tensors@.take(k + 1);
            assert(longer.drop_last() =~= tensors@.take(k as int));
            assert(longer.last() == tensors@[k as int]);
            assert(front + data_of(longer) =~= front + data_of(tensors@.take(k as int))
                + tensors@[k as int]@.bytes);
        }
        push_all(&mut out, tensors[k].bytes.as_slice());
    }
    assert(tensors@.take(tensors@.len() as int) =~= tensors@);
    proof {
        let h = encode_utf8(header_text(tensors@));
        assert(hb@ == h);
        assert(front =~= le_bytes(h.len(), 8) + h);
    }
    out
}

/// The bytes of all tensors are as many as are counted.
pub proof fn data_len_is_the_length(tensors: Seq<OutTensor>)
    ensures
        data_of(tensors).len() == data_len(tensors),
    decreases tensors.len(),
{
    if tensors.len() > 0 {
        data_len_is_the_length(tensors.drop_last());
    }
}

proof fn le_bytes_are_eight(n: nat, k: nat)
    ensures
        le_bytes(n, k).len() == k,
    decreases k,
{
    if k > 0 {
        le_bytes_are_eight(n / 256, (k - 1) as nat);
    }
}

/// The number that the bytes `b` write, lowest byte first.
pub open spec fn le_value(b: Seq<u8>) -> nat
    decreases b.len(),
{
    if b.len() == 0 {
        0
    } else {
        b[0] as nat + 256 * le_value(b.skip(1))
    }
}

/// Two hundred and fifty-six to the `k`.
pub open spec fn pow256(k: nat) -> nat
    decreases k,
{
    if k == 0 {
        1
    } else {
        256 * pow256((k - 1) as nat)
    }
}

/// Little-endian bytes give back the number they were written from.
pub proof fn le_bytes_give_back_the_number(n: nat, k: nat)
    requires
        n < pow256(k),
    ensures
        le_value(le_bytes(n, k)) == n,
        le_bytes(n, k).len() == k,
    decreases k,
{
    le_bytes_are_eight(n, k);
    if k > 0 {
        let m = (k - 1) as nat;
        assert(n / 256 < pow256(m)) by (nonlinear_arith)
            requires
                n < 256 * pow256(m),
        ;
        le_bytes_give_back_the_number(n / 256, m);
        let b = le_bytes(n, k);
        assert(b.skip(1) =~= le_bytes(n / 256, m));
        assert(b[0] == (n % 256) as u8);
    }
}

/// The data offsets in the header are right: the bytes there, behind the header,
/// are the tensor's own. The tensors lie one behind the other in order, without
/// gaps.
pub proof fn a_tensor_lies_where_the_header_says(tensors: Seq<OutTensor>, k: int)
    requires
        0 <= k < tensors.len(),
    ensures
        ({
            let start = 8 + encode_utf8(header_text(tensors)).len();
            let off = data_len(tensors.take(k));
            let end = off + tensors[k]@.bytes.len();
            &&& start + end <= shard_of(tensors).len()
            &&& shard_of(tensors).subrange((start + off) as int, (start + end) as int)
                == tensors[k]@.bytes
            &&& data_len(tensors.take(k + 1)) == end
        }),
{
    let h = encode_utf8(header_text(tensors));
    le_bytes_are_eight(h.len(), 8);
    data_holds_tensor(tensors, k);
    data_len_is_the_length(tensors);
    let start = (8 + h.len()) as int;
    let off = data_len(tensors.take(k)) as int;
    let end = off + tensors[k]@.bytes.len();
    assert(tensors.take(k + 1).drop_last() =~= tensors.take(k));
    assert(shard_of(tensors).subrange(start + off, start + end) =~= data_of(tensors).subrange(
        off,
        end,
    ));
}

proof fn data_holds_tensor(tensors: Seq<OutTensor>, k: int)
    requires
        0 <= k < tensors.len(),
    ensures
        data_len(tensors.take(k)) + tensors[k]@.bytes.len() <= data_of(tensors).len(),
        data_of(tensors).subrange(
            data_len(tensors.take(k)) as int,
            (data_len(tensors.take(k)) + tensors[k]@.bytes.len()) as int,
        ) == tensors[k]@.bytes,
    decreases tensors.len(),
{
    let front = tensors.drop_last();
    data_len_is_the_length(front);
    let off = data_len(tensors.take(k)) as int;
    let end = off + tensors[k]@.bytes.len();
    if k == tensors.len() - 1 {
        assert(tensors.take(k) =~= front);
        assert(data_of(tensors).subrange(off, end) =~= tensors[k]@.bytes);
    } else {
        data_holds_tensor(front, k);
        assert(front.take(k) =~= tensors.take(k));
        assert(data_of(tensors).subrange(off, end) =~= data_of(front).subrange(off, end));
    }
}

/// Whether `part` stands somewhere in `text`.
pub open spec fn stands_in(part: Seq<char>, text: Seq<char>) -> bool {
    exists|p: int|
        0 <= p && p + part.len() <= text.len() && #[trigger] text.subrange(p, p + part.len()) == part
}

proof fn stands_in_the_middle(a: Seq<char>, part: Seq<char>, b: Seq<char>)
    ensures
        stands_in(part, a + part + b),
{
    let text = a + part + b;
    let p = a.len() as int;
    assert(text.subrange(p, p + part.len()) =~= part);
}

proof fn stands_in_more(part: Seq<char>, text: Seq<char>, a: Seq<char>, b: Seq<char>)
    requires
        stands_in(part, text),
    ensures
        stands_in(part, a + text + b),
{
    let p = choose|p: int|
        0 <= p && p + part.len() <= text.len() && #[trigger] text.subrange(p, p + part.len()) == part;
    let longer = a + text + b;
    let q = a.len() + p;
    assert(longer.subrange(q, q + part.len()) =~= text.subrange(p, p + part.len()));
}

proof fn entry_stands_among_entries(tensors: Seq<OutTensor>, k: int)
    requires
        0 <= k < tensors.len(),
    ensures
        stands_in(entry_text(tensors[k]@, data_len(tensors.take(k))), entries_text(tensors)),
    decreases tensors.len(),
{
    let front = tensors.drop_last();
    let entry = entry_text(tensors.last()@, data_len(front));
    let none = Seq::<char>::empty();
    if k == tensors.len() - 1 {
        assert(tensors.take(k) =~= front);
        if front.len() == 0 {
            stands_in_the_middle(none, entry, none);
            assert(none + entry + none =~= entry);
        } else {
            stands_in_the_middle(entries_text(front) + ","@, entry, none);
            assert(entries_text(front) + ","@ + entry + none =~= entries_text(front) + ","@ + entry);
        }
    } else {
        entry_stands_among_entries(front, k);
        assert(front.take(k) =~= tensors.take(k));
        assert(front[k] == tensors[k]);
        stands_in_more(
            entry_text(tensors[k]@, data_len(tensors.take(k))),
            entries_text(front),
            none,
            ","@ + entry,
        );
        assert(none + entries_text(front) + (","@ + entry) =~= entries_text(front) + ","@ + entry);
    }
}

/// A reader of a shard finds every tensor: the first eight bytes give the header's
/// length, and the header names the tensor with its dtype, its dimensions and the two
/// offsets between which its bytes lie behind the header.
pub proof fn a_reader_finds_every_tensor(tensors: Seq<OutTensor>, k: int, from: nat, to: nat)
    requires
        0 <= k < tensors.len(),
        encode_utf8(header_text(tensors)).len() < 0x1_0000_0000_0000_0000,
        from == data_of(tensors.take(k)).len(),
        to == data_of(tensors.take(k + 1)).len(),
    ensures
        ({
            let shard = shard_of(tensors);
            let header = le_value(shard.take(8));
            &&& 8 + header + to <= shard.len()
            &&& shard.subrange(8, (8 + header) as int) == encode_utf8(header_text(tensors))
            &&& shard.subrange((8 + header + from) as int, (8 + header + to) as int)
                == tensors[k]@.bytes
            &&& stands_in(
                "\""@ + tensors[k]@.name + "\":{\"dtype\":\""@ + tensors[k]@.dtype + "\",\"shape\":["@
                    + dims_text(tensors[k]@.shape) + "],\"data_offsets\":["@ + decimal(from) + ","@
                    + decimal(to) + "]}"@,
                header_text(tensors),
            )
        }),
{
    let h = encode_utf8(header_text(tensors));
    data_len_is_the_length(tensors.take(k));
    data_len_is_the_length(tensors.take(k + 1));
    a_tensor_lies_where_the_header_says(tensors, k);
    reveal_with_fuel(pow256, 9);
    le_bytes_give_back_the_number(h.len(), 8);
    assert(shard_of(tensors).take(8) =~= le_bytes(h.len(), 8));
    assert(shard_of(tensors).subrange(8, (8 + h.len()) as int) =~= h);
    entry_stands_among_entries(tensors, k);
    stands_in_more(
        entry_text(tensors[k]@, data_len(tensors.take(k))),
        entries_text(tensors),
        "{"@,
        "}"@,
    );
}

/// A header with one more tensor is the header before it, opened at its end, with a
/// comma where something stands there already. A shard is as long as its parts.
pub proof fn a_header_grows_by_an_entry(tensors: Seq<OutTensor>, t: OutTensor)
    ensures
        ({
            let before = header_text(tensors);
            let after = header_text(tensors.push(t));
            &&& after.take(before.len() - 1) == before.drop_last()
            &&& after.last() == '}'
            &&& after.first() == '{'
            &&& tensors.len() > 0 ==> after[before.len() - 1] == ','
            &&& tensors.len() == 0 ==> before == seq!['{', '}']
        }),
        shard_of(tensors).len() == 8 + encode_utf8(header_text(tensors)).len() + data_of(tensors).len(),
{
    reveal_strlit("{");
    reveal_strlit("}");
    reveal_strlit(",");
    reveal_strlit("\"");
    reveal_strlit("]}");
    let more = tensors.push(t);
    assert(more.drop_last() =~= tensors);
    let before = header_text(tensors);
    let after = header_text(more);
    le_bytes_are_eight(encode_utf8(before).len(), 8);
    if tensors.len() == 0 {
        assert(before =~= seq!['{', '}']);
    }
    assert(after.take(before.len() - 1) =~= before.drop_last());
}

/// Dimensions are written one after another, with a comma between any two.
pub proof fn dimensions_are_listed(shape: Seq<i64>, n: i64)
    ensures
        dims_text(seq![n]) == signed_decimal(n as int),
        shape.len() > 0 ==> dims_text(shape.push(n)) == dims_text(shape).push(',') + signed_decimal(
            n as int,
        ),
        dims_text(Seq::empty()).len() == 0,
        n >= 0 ==> signed_decimal(n as int) == decimal(n as nat),
        n < 0 ==> signed_decimal(n as int) == seq!['-'] + decimal((-n) as nat),
{
    reveal_strlit(",");
    reveal_strlit("-");
    assert("-"@ =~= seq!['-']);
    let more = shape.push(n);
    assert(more.drop_last() =~= shape);
    if shape.len() > 0 {
        assert(dims_text(more) == dims_text(shape) + ","@ + signed_decimal(n as int));
        assert(dims_text(shape) + ","@ =~= dims_text(shape).push(','));
    }
}

/// What is appended stands behind what was there, and a number that was appended is read
/// back from its bytes, the lowest first.
pub proof fn what_is_appended_stands_behind(
    out: &mut Vec<u8>,
    more: &mut Vec<u8>,
    n: u64,
    bytes: &[u8],
)
    requires
        call_ensures(push_le, (out, n, 8), ()),
        call_ensures(push_all, (more, bytes), ()),
    ensures
        final(out)@.take(old(out)@.len() as int) == old(out)@,
        final(out)@.len() == old(out)@.len() + 8,
        le_value(final(out)@.skip(old(out)@.len() as int)) == n,
        final(out)@[old(out)@.len() as int] == n % 256,
        final(more)@.take(old(more)@.len() as int) == old(more)@,
        final(more)@.skip(old(more)@.len() as int) == bytes@,
{
    reveal_with_fuel(pow256, 9);
    le_bytes_give_back_the_number(n as nat, 8);
    let b = le_bytes(n as nat, 8);
    assert(b[0] == (n % 256) as u8);
    assert(final(out)@.take(old(out)@.len() as int) =~= old(out)@);
    assert(final(out)@.skip(old(out)@.len() as int) =~= b);
    assert(final(more)@.take(old(more)@.len() as int) =~= old(more)@);
    assert(final(more)@.skip(old(more)@.len() as int) =~= bytes@);
}

} // verus!
