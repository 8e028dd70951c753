use vstd::prelude::*;

use crate::bytes::{be16, be32, be64, fits, signed, utf8_text};
use crate::error::Fault;
use crate::model::{ListModel, ValueModel};

verus! {

/// How many bytes of `b` lie at or after `p`; never negative.
pub open spec fn rem(b: Seq<u8>, p: int) -> nat {
    if p <= b.len() {
        (b.len() - p) as nat
    } else {
        0
    }
}

/// A parse outcome with `d` more bytes counted as consumed.
pub open spec fn shift<T>(r: Result<(T, nat), Fault>, d: nat) -> Result<(T, nat), Fault> {
    match r {
        Ok((v, c)) => Ok((v, c + d)),
        Err(e) => Err(e),
    }
}

/// Whether `t` is one of the twelve tag-type codes.
pub open spec fn is_tag(t: u8) -> bool {
    t <= 11
}

/// Whether a value of tag `t` is decoded in one primitive step.
pub open spec fn is_simple(t: u8) -> bool {
    (1 <= t && t <= 8) || t == 11
}

/// A string at `p`: a two-byte length, then that many bytes of UTF-8. The
/// result carries the text and the number of bytes consumed.
pub open spec fn spec_string(b: Seq<u8>, p: int) -> Result<(Seq<char>, nat), Fault> {
    if !fits(b, p, 2) {
        Err(Fault::Eof)
    } else if !fits(b, p + 2, be16(b, p)) {
        Err(Fault::Eof)
    } else {
        match utf8_text(b.subrange(p + 2, p + 2 + be16(b, p))) {
            Some(s) => Ok((s, (2 + be16(b, p)) as nat)),
            None => Err(Fault::Utf8),
        }
    }
}

/// A value of a simple tag `t` at `p`, with the number of bytes consumed.
pub open spec fn spec_simple(b: Seq<u8>, p: int, t: u8) -> Result<(ValueModel, nat), Fault> {
    let width: int = if t == 1 {
        1
    } else if t == 2 {
        2
    } else if t == 3 || t == 5 || t == 7 || t == 11 {
        4
    } else {
        8
    };
    if t == 8 {
        match spec_string(b, p) {
            Ok((s, c)) => Ok((ValueModel::String(s), c)),
            Err(e) => Err(e),
        }
    } else if !fits(b, p, width) {
        Err(Fault::Eof)
    } else if t == 1 {
        Ok((ValueModel::Byte(signed(b[p] as int, 256)), 1))
    } else if t == 2 {
        Ok((ValueModel::Short(signed(be16(b, p), 65536)), 2))
    } else if t == 3 {
        Ok((ValueModel::Int(signed(be32(b, p), 4294967296)), 4))
    } else if t == 4 {
        Ok((ValueModel::Long(signed(be64(b, p), 18446744073709551616)), 8))
    } else if t == 5 {
        Ok((ValueModel::Float(be32(b, p)), 4))
    } else if t == 6 {
        Ok((ValueModel::Double(be64(b, p)), 8))
    } else if t == 7 {
        if !fits(b, p + 4, be32(b, p)) {
            Err(Fault::Eof)
        } else {
            Ok((
                ValueModel::ByteArray(b.subrange(p + 4, p + 4 + be32(b, p))),
                (4 + be32(b, p)) as nat,
            ))
        }
    } else {
        if !fits(b, p + 4, 4 * be32(b, p)) {
            Err(Fault::Eof)
        } else {
            Ok((
                ValueModel::IntArray(
                    Seq::new(
                        be32(b, p) as nat,
                        |i: int| signed(be32(b, p + 4 + 4 * i), 4294967296),
                    ),
                ),
                (4 + 4 * be32(b, p)) as nat,
            ))
        }
    }
}

/// A value of tag `t` at `p`, with the number of bytes consumed. A list is a
/// one-byte element tag and a four-byte count, then the elements; a compound
/// is a run of named entries closed by an End tag.
pub open spec fn spec_value(b: Seq<u8>, p: int, t: u8) -> Result<(ValueModel, nat), Fault>
    decreases rem(b, p), 1nat, 0nat,
{
    if t == 0 {
        Err(Fault::InvalidTag)
    } else if !is_tag(t) {
        Err(Fault::UnknownTag(t))
    } else if t == 9 {
        if !fits(b, p, 5) {
            Err(Fault::Eof)
        } else if b[p] == 0 {
            if be32(b, p + 1) == 0 {
                Ok((ValueModel::List(ListModel::Empty), 5))
            } else {
                Err(Fault::InvalidTag)
            }
        } else if !is_tag(b[p]) {
            Err(Fault::UnknownTag(b[p]))
        } else {
            match spec_elems(b, p + 5, b[p], be32(b, p + 1) as nat, Seq::empty()) {
                Ok((s, c)) => Ok((ValueModel::List(ListModel::Items(b[p], s)), c + 5)),
                Err(e) => Err(e),
            }
        }
    } else if t == 10 {
        match spec_entries(b, p, Map::empty()) {
            Ok((m, c)) => Ok((ValueModel::Compound(m), c)),
            Err(e) => Err(e),
        }
    } else {
        spec_simple(b, p, t)
    }
}

/// `n` more list elements of tag `t` at `p`, appended to those in `acc`.
pub open spec fn spec_elems(b: Seq<u8>, p: int, t: u8, n: nat, acc: Seq<ValueModel>) -> Result<
    (Seq<ValueModel>, nat),
    Fault,
>
    decreases rem(b, p), 2nat, n,
{
    if n == 0 {
        Ok((acc, 0))
    } else {
        match spec_value(b, p, t) {
            Ok((v, c)) => shift(spec_elems(b, p + c, t, (n - 1) as nat, acc.push(v)), c),
            Err(e) => Err(e),
        }
    }
}

/// The remaining entries of a compound at `p`, stored over those in `acc`: a
/// later entry replaces an earlier one of the same name.
pub open spec fn spec_entries(b: Seq<u8>, p: int, acc: Map<Seq<char>, ValueModel>) -> Result<
    (Map<Seq<char>, ValueModel>, nat),
    Fault,
>
    decreases rem(b, p), 0nat, 0nat,
{
    if !fits(b, p, 1) {
        Err(Fault::Eof)
    } else if b[p] == 0 {
        Ok((acc, 1))
    } else {
        match spec_string(b, p + 1) {
            Ok((name, c1)) => match spec_value(b, p + 1 + c1, b[p]) {
                Ok((v, c2)) => shift(
                    spec_entries(b, p + 1 + c1 + c2, acc.insert(name, v)),
                    1 + c1 + c2,
                ),
                Err(e) => Err(e),
            },
            Err(e) => Err(e),
        }
    }
}

/// A document at `p`: a root tag, the root name, then the root value. The
/// result carries the name, the value and the number of bytes consumed.
pub open spec fn spec_document(b: Seq<u8>, p: int) -> Result<(Seq<char>, ValueModel, nat), Fault> {
    if !fits(b, p, 1) {
        Err(Fault::Eof)
    } else {
        match spec_string(b, p + 1) {
            Ok((name, c)) => match spec_value(b, p + 1 + c, b[p]) {
                Ok((v, d)) => Ok((name, v, 1 + c + d)),
                Err(e) => Err(e),
            },
            Err(e) => Err(e),
        }
    }
}

/// A list header with the End element tag decodes to the empty list when its
/// count is zero, and fails as an invalid tag otherwise.
pub proof fn lemma_end_typed_list(b: Seq<u8>, p: int)
    requires
        fits(b, p, 5),
        b[p] == 0,
    ensures
        be32(b, p + 1) == 0 ==> spec_value(b, p, 9) == Ok::<(ValueModel, nat), Fault>(
            (ValueModel::List(ListModel::Empty), 5),
        ),
        be32(b, p + 1) != 0 ==> spec_value(b, p, 9) == Err::<(ValueModel, nat), Fault>(
            Fault::InvalidTag,
        ),
{
}

/// A string whose declared length runs past the end of the input fails with
/// end of input.
pub proof fn lemma_truncated_string(b: Seq<u8>, p: int)
    requires
        fits(b, p, 2),
        !fits(b, p + 2, be16(b, p)),
    ensures
        spec_value(b, p, 8) == Err::<(ValueModel, nat), Fault>(Fault::Eof),
{
}

/// A byte array whose declared length runs past the end of the input fails
/// with end of input.
pub proof fn lemma_truncated_byte_array(b: Seq<u8>, p: int)
    requires
        fits(b, p, 4),
        !fits(b, p + 4, be32(b, p)),
    ensures
        spec_value(b, p, 7) == Err::<(ValueModel, nat), Fault>(Fault::Eof),
{
}

/// A string whose bytes are not valid UTF-8 fails as invalid text.
pub proof fn lemma_invalid_text(b: Seq<u8>, p: int)
    requires
        fits(b, p, 2),
        fits(b, p + 2, be16(b, p)),
        utf8_text(b.subrange(p + 2, p + 2 + be16(b, p))) is None,
    ensures
        spec_value(b, p, 8) == Err::<(ValueModel, nat), Fault>(Fault::Utf8),
{
}

/// A tag-type code above the twelve known ones fails as an unknown tag,
/// carrying the code, wherever a value is expected.
pub proof fn lemma_unknown_tag(b: Seq<u8>, p: int, t: u8)
    requires
        t > 11,
    ensures
        spec_value(b, p, t) == Err::<(ValueModel, nat), Fault>(Fault::UnknownTag(t)),
{
}

/// A compound that names the same key twice holds one entry for it: the
/// value encoded later.
pub proof fn lemma_duplicate_key(
    b: Seq<u8>,
    p: int,
    acc: Map<Seq<char>, ValueModel>,
    k: Seq<char>,
    v1: ValueModel,
    c1: nat,
    c2: nat,
    v2: ValueModel,
    d1: nat,
    d2: nat,
)
    requires
        fits(b, p, 1),
        b[p] != 0,
        spec_string(b, p + 1) == Ok::<(Seq<char>, nat), Fault>((k, c1)),
        spec_value(b, p + 1 + c1, b[p]) == Ok::<(ValueModel, nat), Fault>((v1, c2)),
        fits(b, p + 1 + c1 + c2, 1),
        b[p + 1 + c1 + c2] != 0,
        spec_string(b, p + 2 + c1 + c2) == Ok::<(Seq<char>, nat), Fault>((k, d1)),
        spec_value(b, p + 2 + c1 + c2 + d1, b[p + 1 + c1 + c2]) == Ok::<(ValueModel, nat), Fault>(
            (v2, d2),
        ),
        fits(b, p + 2 + c1 + c2 + d1 + d2, 1),
        b[p + 2 + c1 + c2 + d1 + d2] == 0,
    ensures
        spec_entries(b, p, acc) == Ok::<(Map<Seq<char>, ValueModel>, nat), Fault>(
            (acc.insert(k, v2), 3 + c1 + c2 + d1 + d2),
        ),
        spec_entries(b, p, acc)->Ok_0.0[k] == v2,
{
    let q = p + 1 + c1 + c2;
    let e = p + 2 + c1 + c2 + d1 + d2;
    assert(spec_entries(b, e, acc.insert(k, v1).insert(k, v2)) == Ok::<
        (Map<Seq<char>, ValueModel>, nat),
        Fault,
    >((acc.insert(k, v1).insert(k, v2), 1)));
    assert(q + 1 + d1 + d2 == e);
    assert(spec_entries(b, q, acc.insert(k, v1)) == shift(
        spec_entries(b, e, acc.insert(k, v1).insert(k, v2)),
        1 + d1 + d2,
    ));
    assert(spec_entries(b, p, acc) == shift(spec_entries(b, q, acc.insert(k, v1)), 1 + c1 + c2));
    assert(acc.insert(k, v1).insert(k, v2) =~= acc.insert(k, v2));
}


/// A document whose root tag is above the twelve known codes fails as an
/// unknown tag carrying that code, once its name reads.
pub proof fn lemma_unknown_root_tag(b: Seq<u8>, p: int)
    requires
        fits(b, p, 1),
        b[p] > 11,
        spec_string(b, p + 1) is Ok,
    ensures
        spec_document(b, p) == Err::<(Seq<char>, ValueModel, nat), Fault>(Fault::UnknownTag(b[p])),
{
}

/// A document whose root is a list with the End element tag holds the empty
/// list when the count is zero, and fails as an invalid tag otherwise.
pub proof fn lemma_end_typed_root_list(b: Seq<u8>, p: int, name: Seq<char>, c: nat)
    requires
        fits(b, p, 1),
        b[p] == 9,
        spec_string(b, p + 1) == Ok::<(Seq<char>, nat), Fault>((name, c)),
        fits(b, p + 1 + c, 5),
        b[p + 1 + c] == 0,
    ensures
        be32(b, p + 2 + c) == 0 ==> spec_document(b, p) == Ok::<
            (Seq<char>, ValueModel, nat),
            Fault,
        >((name, ValueModel::List(ListModel::Empty), 6 + c)),
        be32(b, p + 2 + c) != 0 ==> spec_document(b, p) == Err::<
            (Seq<char>, ValueModel, nat),
            Fault,
        >(Fault::InvalidTag),
{
    lemma_end_typed_list(b, p + 1 + c);
}

} // verus!
