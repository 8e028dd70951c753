use vstd::prelude::*;
use vstd::string::StringExecFns;

use crate::bytes::{be32, decode_utf8, fits, signed, ByteReader};
use crate::error::{Fault, NbtReadError};
use crate::grammar::{
    is_simple, rem, shift, spec_document, spec_elems, spec_entries, spec_simple,
    spec_string, spec_value,
};
use crate::model::{
    compounds_model, lists_model, Compound, List, ListModel, RootValue, Value, ValueModel,
    TAG_BYTE, TAG_BYTE_ARRAY, TAG_COMPOUND, TAG_DOUBLE, TAG_END, TAG_FLOAT, TAG_INT,
    TAG_INT_ARRAY, TAG_LIST, TAG_LONG, TAG_SHORT, TAG_STRING,
};

verus! {

/// The lowercase hexadecimal digit of `d`.
pub open spec fn hex_digit_text(d: int) -> Seq<char> {
    if d == 0 { "0"@ } else if d == 1 { "1"@ } else if d == 2 { "2"@ } else if d == 3 { "3"@ }
    else if d == 4 { "4"@ } else if d == 5 { "5"@ } else if d == 6 { "6"@ } else if d == 7 { "7"@ }
    else if d == 8 { "8"@ } else if d == 9 { "9"@ } else if d == 10 { "a"@ } else if d == 11 { "b"@ }
    else if d == 12 { "c"@ } else if d == 13 { "d"@ } else if d == 14 { "e"@ } else { "f"@ }
}

/// The display name of a tag-type code.
pub open spec fn tag_name(t: u8) -> Seq<char> {
    if t == 0 { "TAG_End"@ } else if t == 1 { "TAG_Byte"@ } else if t == 2 { "TAG_Short"@ }
    else if t == 3 { "TAG_Int"@ } else if t == 4 { "TAG_Long"@ } else if t == 5 { "TAG_Float"@ }
    else if t == 6 { "TAG_Double"@ } else if t == 7 { "TAG_Byte_Array"@ }
    else if t == 8 { "TAG_String"@ } else if t == 9 { "TAG_List"@ }
    else if t == 10 { "TAG_Compound"@ } else if t == 11 { "TAG_Int_Array"@ }
    else {
        "(unknown tag type 0x"@ + hex_digit_text(t as int / 16) + hex_digit_text(t as int % 16)
            + ")"@
    }
}

fn hex_digit(d: u8) -> (r: &'static str)
    requires
        d < 16,
    ensures
        r@ == hex_digit_text(d as int),
{
    if d == 0 { "0" } else if d == 1 { "1" } else if d == 2 { "2" } else if d == 3 { "3" }
    else if d == 4 { "4" } else if d == 5 { "5" } else if d == 6 { "6" } else if d == 7 { "7" }
    else if d == 8 { "8" } else if d == 9 { "9" } else if d == 10 { "a" } else if d == 11 { "b" }
    else if d == 12 { "c" } else if d == 13 { "d" } else if d == 14 { "e" } else { "f" }
}

/// The display name of a tag-type code, such as `TAG_Compound`; an unknown
/// code is named by its two hexadecimal digits.
pub fn tag_constant_to_name(tag_type: u8) -> (r: String)
    ensures
        r@ == tag_name(tag_type),
{
    let name = if tag_type == TAG_END {
        "TAG_End"
    } else if tag_type == TAG_BYTE {
        "TAG_Byte"
    } else if tag_type == TAG_SHORT {
        "TAG_Short"
    } else if tag_type == TAG_INT {
        "TAG_Int"
    } else if tag_type == TAG_LONG {
        "TAG_Long"
    } else if tag_type == TAG_FLOAT {
        "TAG_Float"
    } else if tag_type == TAG_DOUBLE {
        "TAG_Double"
    } else if tag_type == TAG_BYTE_ARRAY {
        "TAG_Byte_Array"
    } else if tag_type == TAG_STRING {
        "TAG_String"
    } else if tag_type == TAG_LIST {
        "TAG_List"
    } else if tag_type == TAG_COMPOUND {
        "TAG_Compound"
    } else if tag_type == TAG_INT_ARRAY {
        "TAG_Int_Array"
    } else {
        let mut s = "(unknown tag type 0x".to_owned();
        s.append(hex_digit(tag_type / 16));
        s.append(hex_digit(tag_type % 16));
        s.append(")");
        return s;
    };
    name.to_owned()
}

/// Whether a value of tag `tag_type` is decoded in one primitive step
/// (`true`) or needs the descent engine (`false`); `Err` carries a code that
/// names no value kind.
pub fn is_simple_value(tag_type: u8) -> (r: Result<bool, u8>)
    ensures
        match r {
            Ok(s) => 1 <= tag_type <= 11 && s == is_simple(tag_type),
            Err(t) => t == tag_type && !(1 <= tag_type <= 11),
        },
{
    if tag_type == TAG_BYTE || tag_type == TAG_SHORT || tag_type == TAG_INT || tag_type == TAG_LONG
        || tag_type == TAG_FLOAT || tag_type == TAG_DOUBLE || tag_type == TAG_BYTE_ARRAY
        || tag_type == TAG_STRING || tag_type == TAG_INT_ARRAY {
        Ok(true)
    } else if tag_type == TAG_LIST || tag_type == TAG_COMPOUND {
        Ok(false)
    } else {
        Err(tag_type)
    }
}

/// Reads a string: a two-byte unsigned length, then that many bytes of
/// UTF-8.
pub fn read_nbt_string(reader: &mut ByteReader) -> (r: Result<String, NbtReadError>)
    requires
        old(reader).wf(),
    ensures
        final(reader).wf(),
        final(reader).bytes() == old(reader).bytes(),
        match r {
            Ok(s) => spec_string(old(reader).bytes(), old(reader).position()) == Ok::<
                (Seq<char>, nat),
                Fault,
            >((s@, (final(reader).position() - old(reader).position()) as nat))
                && final(reader).position() >= old(reader).position(),
            Err(e) => spec_string(old(reader).bytes(), old(reader).position()) == Err::<
                (Seq<char>, nat),
                Fault,
            >(e.fault()),
        },
{
    let length = match reader.read_u16() {
        Ok(x) => x as usize,
        Err(e) => return Err(e),
    };
    let bytes = match reader.read_bytes(length) {
        Ok(x) => x,
        Err(e) => return Err(e),
    };
    match decode_utf8(bytes) {
        Ok(s) => Ok(s),
        Err(e) => Err(NbtReadError::InvalidUtf8(e)),
    }
}

/// Reads a byte array: a four-byte unsigned length, then that many bytes.
pub fn read_nbt_byte_array(reader: &mut ByteReader) -> (r: Result<Vec<u8>, NbtReadError>)
    requires
        old(reader).wf(),
    ensures
        final(reader).wf(),
        final(reader).bytes() == old(reader).bytes(),
        match r {
            Ok(v) => spec_simple(old(reader).bytes(), old(reader).position(), TAG_BYTE_ARRAY)
                == Ok::<(ValueModel, nat), Fault>(
                (
                    ValueModel::ByteArray(v@),
                    (final(reader).position() - old(reader).position()) as nat,
                ),
            ) && final(reader).position() >= old(reader).position(),
            Err(e) => spec_simple(old(reader).bytes(), old(reader).position(), TAG_BYTE_ARRAY)
                == Err::<(ValueModel, nat), Fault>(e.fault()),
        },
{
    let length = match reader.read_u32() {
        Ok(x) => x as usize,
        Err(e) => return Err(e),
    };
    reader.read_bytes(length)
}

/// Reads an int array: a four-byte unsigned length, then that many
/// big-endian four-byte integers.
pub fn read_nbt_int_array(reader: &mut ByteReader) -> (r: Result<Vec<i32>, NbtReadError>)
    requires
        old(reader).wf(),
    ensures
        final(reader).wf(),
        final(reader).bytes() == old(reader).bytes(),
        match r {
            Ok(v) => spec_simple(old(reader).bytes(), old(reader).position(), TAG_INT_ARRAY)
                == Ok::<(ValueModel, nat), Fault>(
                (
                    ValueModel::IntArray(v@.map_values(|x: i32| x as int)),
                    (final(reader).position() - old(reader).position()) as nat,
                ),
            ) && final(reader).position() >= old(reader).position(),
            Err(e) => spec_simple(old(reader).bytes(), old(reader).position(), TAG_INT_ARRAY)
                == Err::<(ValueModel, nat), Fault>(e.fault()),
        },
{
    let ghost b = reader.bytes();
    let ghost p = reader.position();
    let length = match reader.read_u32() {
        Ok(x) => x as usize,
        Err(e) => return Err(e),
    };
    if length > reader.remaining() / 4 {
        return Err(NbtReadError::UnexpectedEof);
    }
    let mut vec: Vec<i32> = Vec::new();
    let mut i: usize = 0;
    while i < length
        invariant
            reader.wf(),
            reader.bytes() == b,
            b == old(reader).bytes(),
            p == old(reader).position(),
            length == be32(b, p),
            fits(b, p + 4, 4 * length),
            i <= length,
            reader.position() == p + 4 + 4 * i,
            vec@.len() == i,
            forall|j: int|
                0 <= j < i ==> #[trigger] vec@[j] as int == signed(
                    be32(b, p + 4 + 4 * j),
                    4294967296,
                ),
        decreases length - i,
    {
        let x = match reader.read_i32() {
            Ok(x) => x,
            Err(e) => return Err(e),
        };
        vec.push(x);
        i = i + 1;
    }
    assert(vec@.map_values(|x: i32| x as int) =~= Seq::new(
        length as nat,
        |j: int| signed(be32(b, p + 4 + 4 * j), 4294967296),
    ));
    Ok(vec)
}

/// Whether an exec outcome `r`, read from `p` to `p_next`, is the one the grammar
/// gives as `s`.
pub open spec fn value_outcome(
    s: Result<(ValueModel, nat), Fault>,
    r: Result<Value, NbtReadError>,
    p: int,
    p_next: int,
) -> bool {
    match r {
        Ok(v) => p_next >= p && s == Ok::<(ValueModel, nat), Fault>((v.model(), (p_next - p) as nat)),
        Err(e) => s == Err::<(ValueModel, nat), Fault>(e.fault()),
    }
}

/// Reads one value of a simple tag.
pub fn read_simple_value(tag_type: u8, reader: &mut ByteReader) -> (r: Result<
    Value,
    NbtReadError,
>)
    requires
        old(reader).wf(),
        is_simple(tag_type),
    ensures
        final(reader).wf(),
        final(reader).bytes() == old(reader).bytes(),
        value_outcome(
            spec_simple(old(reader).bytes(), old(reader).position(), tag_type),
            r,
            old(reader).position(),
            final(reader).position(),
        ),
        r matches Ok(v) ==> v.tag() == tag_type,
{
    if tag_type == TAG_BYTE {
        match reader.read_i8() {
            Ok(x) => Ok(Value::Byte(x)),
            Err(e) => Err(e),
        }
    } else if tag_type == TAG_SHORT {
        match reader.read_i16() {
            Ok(x) => Ok(Value::Short(x)),
            Err(e) => Err(e),
        }
    } else if tag_type == TAG_INT {
        match reader.read_i32() {
            Ok(x) => Ok(Value::Int(x)),
            Err(e) => Err(e),
        }
    } else if tag_type == TAG_LONG {
        match reader.read_i64() {
            Ok(x) => Ok(Value::Long(x)),
            Err(e) => Err(e),
        }
    } else if tag_type == TAG_FLOAT {
        match reader.read_u32() {
            Ok(x) => Ok(Value::Float(x)),
            Err(e) => Err(e),
        }
    } else if tag_type == TAG_DOUBLE {
        match reader.read_u64() {
            Ok(x) => Ok(Value::Double(x)),
            Err(e) => Err(e),
        }
    } else if tag_type == TAG_BYTE_ARRAY {
        match read_nbt_byte_array(reader) {
            Ok(x) => Ok(Value::ByteArray(x)),
            Err(e) => Err(e),
        }
    } else if tag_type == TAG_STRING {
        match read_nbt_string(reader) {
            Ok(x) => Ok(Value::String(x)),
            Err(e) => Err(e),
        }
    } else {
        match read_nbt_int_array(reader) {
            Ok(x) => Ok(Value::IntArray(x)),
            Err(e) => Err(e),
        }
    }
}


/// Reads a list header, then either the whole list of simple elements, or
/// the start of a list of lists or of compounds.
fn start_list_read(reader: &mut ByteReader) -> (r: Result<ReadStart, NbtReadError>)
    requires
        old(reader).wf(),
    ensures
        final(reader).wf(),
        final(reader).bytes() == old(reader).bytes(),
        start_outcome(
            old(reader).bytes(),
            old(reader).position(),
            TAG_LIST,
            r,
            final(reader).position(),
        ),
{
    let ghost b = reader.bytes();
    let ghost p = reader.position();
    let inner_tag_type = match reader.read_u8() {
        Ok(x) => x,
        Err(e) => return Err(e),
    };
    let number = match reader.read_u32() {
        Ok(x) => x as usize,
        Err(e) => return Err(e),
    };
    if inner_tag_type == TAG_END && number == 0 {
        return Ok(ReadStart::Simple(Value::List(List::Empty)));
    }
    if inner_tag_type == TAG_END {
        return Err(NbtReadError::InvalidTagType);
    }
    if inner_tag_type > TAG_INT_ARRAY {
        return Err(NbtReadError::UnknownTagType(inner_tag_type));
    }
    if inner_tag_type == TAG_LIST {
        let reading = ReadingListOfList { items_remaining: number, value: Vec::new() };
        proof {
            assert(lists_model(reading.value@) =~= Seq::<ValueModel>::empty());
        }
        return Ok(ReadStart::Complex(ReadingComplex::ListOfList(reading)));
    }
    if inner_tag_type == TAG_COMPOUND {
        let reading = ReadingListOfCompound { items_remaining: number, value: Vec::new() };
        proof {
            assert(compounds_model(reading.value@) =~= Seq::<ValueModel>::empty());
        }
        return Ok(ReadStart::Complex(ReadingComplex::ListOfCompound(reading)));
    }
    let mut list = List::with_kind(inner_tag_type);
    let mut i: usize = 0;
    while i < number
        invariant
            reader.wf(),
            reader.bytes() == b,
            b == old(reader).bytes(),
            p == old(reader).position(),
            fits(b, p, 5),
            reader.position() >= p + 5,
            inner_tag_type == b[p],
            is_simple(inner_tag_type),
            number == be32(b, p + 1),
            i <= number,
            list.model() matches ListModel::Items(t, s) && t == inner_tag_type && spec_elems(
                b,
                p + 5,
                inner_tag_type,
                number as nat,
                Seq::empty(),
            ) == shift(
                spec_elems(b, reader.position(), inner_tag_type, (number - i) as nat, s),
                (reader.position() - (p + 5)) as nat,
            ),
        decreases number - i,
    {
        let ghost pos = reader.position();
        let ghost s = list.model()->Items_1;
        assert(spec_value(b, pos, inner_tag_type) == spec_simple(b, pos, inner_tag_type));
        let value = match read_simple_value(inner_tag_type, reader) {
            Ok(x) => x,
            Err(e) => {
                assert(spec_elems(b, pos, inner_tag_type, (number - i) as nat, s) == Err::<
                    (Seq<ValueModel>, nat),
                    Fault,
                >(e.fault()));
                return Err(e);
            },
        };
        assert(spec_elems(b, pos, inner_tag_type, (number - i) as nat, s) == shift(
            spec_elems(
                b,
                reader.position(),
                inner_tag_type,
                (number - i - 1) as nat,
                s.push(value.model()),
            ),
            (reader.position() - pos) as nat,
        ));
        list.push_value(value);
        i = i + 1;
    }
    Ok(ReadStart::Simple(Value::List(list)))
}

/// Starts reading a value of tag `tag_type`: a simple value is read whole, a
/// composite one yields the state that the descent engine drives.
fn start_potentially_complex_read(tag_type: u8, reader: &mut ByteReader) -> (r: Result<
    ReadStart,
    NbtReadError,
>)
    requires
        old(reader).wf(),
    ensures
        final(reader).wf(),
        final(reader).bytes() == old(reader).bytes(),
        start_outcome(
            old(reader).bytes(),
            old(reader).position(),
            tag_type,
            r,
            final(reader).position(),
        ),
{
    let is_simple_tag = match is_simple_value(tag_type) {
        Ok(is_it) => is_it,
        Err(t) => {
            if t == TAG_END {
                return Err(NbtReadError::InvalidTagType);
            } else {
                return Err(NbtReadError::UnknownTagType(t));
            }
        },
    };
    if is_simple_tag {
        return match read_simple_value(tag_type, reader) {
            Ok(v) => Ok(ReadStart::Simple(v)),
            Err(e) => Err(e),
        };
    }
    if tag_type == TAG_LIST {
        start_list_read(reader)
    } else {
        Ok(
            ReadStart::Complex(
                ReadingComplex::Compound(
                    ReadingCompound { value: Compound::new(), name_of_current_value: None },
                ),
            ),
        )
    }
}

/// What a frame of the descent engine stands for: a compound with the
/// entries read so far and the name awaiting a nested value, or a list of
/// element tag `t` with `n` elements still to read and those read so far.
enum FrameModel {
    Compound(Map<Seq<char>, ValueModel>, Option<Seq<char>>),
    Elems(u8, nat, Seq<ValueModel>),
}

/// The value that a frame completes to when reading resumes at `p`, and the
/// bytes it consumes.
spec fn frame_rest(b: Seq<u8>, f: FrameModel, p: int) -> Result<(ValueModel, nat), Fault> {
    match f {
        FrameModel::Compound(m, _) => match spec_entries(b, p, m) {
            Ok((m2, c)) => Ok((ValueModel::Compound(m2), c)),
            Err(e) => Err(e),
        },
        FrameModel::Elems(t, n, acc) => match spec_elems(b, p, t, n, acc) {
            Ok((s, c)) => Ok((ValueModel::List(ListModel::Items(t, s)), c)),
            Err(e) => Err(e),
        },
    }
}

/// The value of a finished frame.
spec fn final_model(f: FrameModel) -> ValueModel {
    match f {
        FrameModel::Compound(m, _) => ValueModel::Compound(m),
        FrameModel::Elems(t, _, acc) => ValueModel::List(ListModel::Items(t, acc)),
    }
}

/// A frame after a nested value `v` has been stored into it.
spec fn fold(f: FrameModel, v: ValueModel) -> FrameModel {
    match f {
        FrameModel::Compound(m, Some(k)) => FrameModel::Compound(m.insert(k, v), None),
        FrameModel::Compound(m, None) => f,
        FrameModel::Elems(t, n, acc) => FrameModel::Elems(t, n, acc.push(v)),
    }
}

/// Reading `child` from `p_next`, storing its value into `parent`, and
/// completing `parent`, counted from `p`.
spec fn chain(b: Seq<u8>, child: FrameModel, parent: FrameModel, p_next: int, p: int) -> Result<
    (ValueModel, nat),
    Fault,
> {
    match frame_rest(b, child, p_next) {
        Ok((v, c)) => shift(frame_rest(b, fold(parent, v), p_next + c), (p_next + c - p) as nat),
        Err(e) => Err(e),
    }
}

/// The value that a whole stack of frames completes to, reading from `p`:
/// `top` first, then each frame below it in turn; with the position where
/// reading ends.
spec fn resume(b: Seq<u8>, below: Seq<FrameModel>, top: FrameModel, p: int) -> Result<
    (ValueModel, int),
    Fault,
>
    decreases below.len(),
{
    match frame_rest(b, top, p) {
        Ok((v, c)) => if below.len() == 0 {
            Ok((v, p + c))
        } else {
            resume(b, below.drop_last(), fold(below.last(), v), p + c)
        },
        Err(e) => Err(e),
    }
}

/// Compounds still owed by a frame that reads a list of compounds.
spec fn loc_weight(f: FrameModel) -> nat {
    match f {
        FrameModel::Elems(t, n, _) => if t == TAG_COMPOUND {
            n
        } else {
            0
        },
        _ => 0,
    }
}

spec fn loc_total(s: Seq<FrameModel>) -> nat
    decreases s.len(),
{
    if s.len() == 0 {
        0
    } else {
        loc_total(s.drop_last()) + loc_weight(s.last())
    }
}

spec fn start_outcome(
    b: Seq<u8>,
    p: int,
    t: u8,
    r: Result<ReadStart, NbtReadError>,
    p_next: int,
) -> bool {
    &&& r is Ok ==> p_next >= p
    &&& match r {
        Err(e) => spec_value(b, p, t) == Err::<(ValueModel, nat), Fault>(e.fault()),
        Ok(ReadStart::Simple(v)) => spec_value(b, p, t) == Ok::<(ValueModel, nat), Fault>(
            (v.model(), (p_next - p) as nat),
        ) && (t == TAG_LIST ==> v is List && p_next >= p + 5),
        Ok(ReadStart::Complex(f)) => spec_value(b, p, t) == shift(
            frame_rest(b, f.model(), p_next),
            (p_next - p) as nat,
        ) && fresh_frame(b, p, t, f, p_next),
    }
    &&& t == TAG_END ==> (r matches Err(NbtReadError::InvalidTagType) && p_next == p)
    &&& t > TAG_INT_ARRAY ==> ((r matches Err(NbtReadError::UnknownTagType(u)) && u == t)
        && p_next == p)
    &&& t == TAG_COMPOUND ==> (r matches Ok(ReadStart::Complex(_)))
    &&& (t == TAG_LIST && fits(b, p, 5) && (b[p] == TAG_LIST || b[p] == TAG_COMPOUND)) ==> (
    r matches Ok(ReadStart::Complex(_)))
}

/// The state handed out to read a composite value of tag `t` at `p`: an
/// empty compound with no pending name before any byte is read, or, after
/// the five header bytes of a list of lists or of compounds, an empty
/// accumulator owed the declared count.
spec fn fresh_frame(b: Seq<u8>, p: int, t: u8, f: ReadingComplex, p_next: int) -> bool {
    match f {
        ReadingComplex::Compound(c) => t == TAG_COMPOUND && c.name_of_current_value is None
            && c.model() == FrameModel::Compound(Map::empty(), None) && p_next == p,
        ReadingComplex::ListOfList(l) => t == TAG_LIST && fits(b, p, 5) && b[p] == TAG_LIST
            && l.items_remaining == be32(b, p + 1) && l.value@.len() == 0 && p_next == p + 5,
        ReadingComplex::ListOfCompound(l) => t == TAG_LIST && fits(b, p, 5) && b[p]
            == TAG_COMPOUND && l.items_remaining == be32(b, p + 1) && l.value@.len() == 0
            && p_next == p + 5,
    }
}

/// What one step of a frame `f` at `p` promises, leaving it as `f2` at `p_next`.
spec fn step_outcome(
    b: Seq<u8>,
    f: FrameModel,
    p: int,
    r: Result<ComplexReadResult, NbtReadError>,
    f2: FrameModel,
    p_next: int,
) -> bool {
    (r is Ok ==> p_next >= p) && match r {
        Err(e) => frame_rest(b, f, p) == Err::<(ValueModel, nat), Fault>(e.fault()),
        Ok(ComplexReadResult::NotFinished) => p_next > p && frame_rest(b, f, p) == shift(
            frame_rest(b, f2, p_next),
            (p_next - p) as nat,
        ),
        Ok(ComplexReadResult::Done) => frame_rest(b, f, p) == Ok::<(ValueModel, nat), Fault>(
            (final_model(f2), (p_next - p) as nat),
        ) && (p_next > p || (f2 == f && loc_weight(f) == 0)),
        Ok(ComplexReadResult::DescendInto(child)) => frame_rest(b, f, p) == chain(
            b,
            child.model(),
            f2,
            p_next,
            p,
        ) && (p_next > p || (loc_weight(f2) < loc_weight(f) && loc_weight(child.model()) == 0)),
    }
}

proof fn lemma_elems_step(b: Seq<u8>, t: u8, n: nat, acc: Seq<ValueModel>, p: int)
    requires
        n > 0,
    ensures
        frame_rest(b, FrameModel::Elems(t, n, acc), p) == match spec_value(b, p, t) {
            Ok((v, c)) => shift(
                frame_rest(b, FrameModel::Elems(t, (n - 1) as nat, acc.push(v)), p + c),
                c,
            ),
            Err(e) => Err(e),
        },
{
    match spec_value(b, p, t) {
        Ok((v, c)) => {
            match spec_elems(b, p + c, t, (n - 1) as nat, acc.push(v)) {
                Ok(_) => {},
                Err(_) => {},
            }
        },
        Err(_) => {},
    }
}

/// The tag byte of the compound entry at `p`.
spec fn entry_tag(b: Seq<u8>, p: int) -> u8 {
    b[p]
}

/// The name of the compound entry at `p`.
spec fn entry_name(b: Seq<u8>, p: int) -> Seq<char> {
    spec_string(b, p + 1)->Ok_0.0
}

/// Where the value of the compound entry at `p` starts.
spec fn entry_value_pos(b: Seq<u8>, p: int) -> int {
    p + 1 + spec_string(b, p + 1)->Ok_0.1
}

/// The value of the compound entry at `p` and the bytes it takes.
spec fn entry_value(b: Seq<u8>, p: int) -> (ValueModel, nat) {
    spec_value(b, entry_value_pos(b, p), entry_tag(b, p))->Ok_0
}

/// Whether the entry at `p` holds a composite value that the engine descends
/// into: a compound, or a list of lists or of compounds.
spec fn entry_descends(b: Seq<u8>, p: int) -> bool {
    ||| entry_tag(b, p) == TAG_COMPOUND
    ||| (entry_tag(b, p) == TAG_LIST && fits(b, entry_value_pos(b, p), 5) && (b[entry_value_pos(
        b,
        p,
    )] == TAG_LIST || b[entry_value_pos(b, p)] == TAG_COMPOUND))
}

/// The failure met while reading the entry at `p` itself: its tag byte, its
/// name, and either its whole value or, for a composite value, its header.
/// `None` where those parts read.
spec fn entry_fault(b: Seq<u8>, p: int) -> Option<Fault> {
    if !fits(b, p, 1) {
        Some(Fault::Eof)
    } else if entry_tag(b, p) == TAG_END {
        None
    } else {
        match spec_string(b, p + 1) {
            Err(e) => Some(e),
            Ok(_) => if entry_descends(b, p) {
                None
            } else {
                match spec_value(b, entry_value_pos(b, p), entry_tag(b, p)) {
                    Err(e) => Some(e),
                    Ok(_) => None,
                }
            },
        }
    }
}

/// Whether the bytes at `p` hold a whole entry, other than End, whose value
/// is not descended into and decodes in this step.
spec fn simple_entry(b: Seq<u8>, p: int) -> bool {
    &&& fits(b, p, 1)
    &&& entry_tag(b, p) != TAG_END
    &&& entry_fault(b, p) is None
    &&& !entry_descends(b, p)
}

/// A compound being read.
struct ReadingCompound {
    value: Compound,
    name_of_current_value: Option<String>,
}

/// A list of lists being read.
struct ReadingListOfList {
    items_remaining: usize,
    value: Vec<List>,
}

/// A list of compounds being read.
struct ReadingListOfCompound {
    items_remaining: usize,
    value: Vec<Compound>,
}

/// A composite value whose reading is in progress.
enum ReadingComplex {
    Compound(ReadingCompound),
    ListOfList(ReadingListOfList),
    ListOfCompound(ReadingListOfCompound),
}

/// What one step of a composite read leads to.
enum ComplexReadResult {
    NotFinished,
    DescendInto(ReadingComplex),
    Done,
}

/// The start of reading a value: whole, or a composite to drive.
enum ReadStart {
    Simple(Value),
    Complex(ReadingComplex),
}

impl ReadingCompound {
    spec fn model(&self) -> FrameModel {
        FrameModel::Compound(
            self.value.model(),
            match self.name_of_current_value {
                Some(s) => Some(s@),
                None => None,
            },
        )
    }

    /// Reads one entry: the End tag that closes the compound, a simple entry
    /// stored at once, or the name and start of a composite entry, whose name
    /// waits until the nested value is complete.
    #[verifier::rlimit(50)]
    fn continue_read(&mut self, reader: &mut ByteReader) -> (r: Result<
        ComplexReadResult,
        NbtReadError,
    >)
        requires
            old(reader).wf(),
        ensures
            final(reader).wf(),
            final(reader).bytes() == old(reader).bytes(),
            step_outcome(
                old(reader).bytes(),
                old(self).model(),
                old(reader).position(),
                r,
                final(self).model(),
                final(reader).position(),
            ),
            r is Ok ==> final(reader).position() > old(reader).position(),
            r is Err <==> entry_fault(old(reader).bytes(), old(reader).position()) is Some,
            r matches Err(e) ==> entry_fault(old(reader).bytes(), old(reader).position()) == Some(
                e.fault(),
            ),
            (r matches Ok(ComplexReadResult::Done)) <==> (fits(
                old(reader).bytes(),
                old(reader).position(),
                1,
            ) && entry_tag(old(reader).bytes(), old(reader).position()) == TAG_END),
            (r matches Ok(ComplexReadResult::NotFinished)) <==> simple_entry(
                old(reader).bytes(),
                old(reader).position(),
            ),
            (r matches Ok(ComplexReadResult::DescendInto(_))) <==> (fits(
                old(reader).bytes(),
                old(reader).position(),
                1,
            ) && entry_tag(old(reader).bytes(), old(reader).position()) != TAG_END && entry_fault(
                old(reader).bytes(),
                old(reader).position(),
            ) is None && entry_descends(old(reader).bytes(), old(reader).position())),
            (r matches Ok(ComplexReadResult::Done)) ==> entry_tag(old(reader).bytes(), old(reader).position()) == TAG_END
                && final(reader).position() == old(reader).position() + 1
                && final(self).value.model() == old(self).value.model()
                && final(self).name_of_current_value == old(self).name_of_current_value,
            (r matches Ok(ComplexReadResult::NotFinished)) ==> simple_entry(
                old(reader).bytes(),
                old(reader).position(),
            ) && final(self).value.model() == old(self).value.model().insert(
                entry_name(old(reader).bytes(), old(reader).position()),
                entry_value(old(reader).bytes(), old(reader).position()).0,
            ) && final(reader).position() == entry_value_pos(
                old(reader).bytes(),
                old(reader).position(),
            ) + entry_value(old(reader).bytes(), old(reader).position()).1
                && final(self).name_of_current_value == old(self).name_of_current_value,
            r matches Ok(ComplexReadResult::DescendInto(c)) ==> entry_tag(
                old(reader).bytes(),
                old(reader).position(),
            ) != TAG_END && spec_string(old(reader).bytes(), old(reader).position() + 1) is Ok
                && final(self).value.model() == old(self).value.model() && (
            final(self).name_of_current_value matches Some(n) && n@ == entry_name(
                old(reader).bytes(),
                old(reader).position(),
            )) && fresh_frame(
                old(reader).bytes(),
                entry_value_pos(old(reader).bytes(), old(reader).position()),
                entry_tag(old(reader).bytes(), old(reader).position()),
                c,
                final(reader).position(),
            ),
    {
        let tag_type = match reader.read_u8() {
            Ok(x) => x,
            Err(e) => return Err(e),
        };
        if tag_type == TAG_END {
            return Ok(ComplexReadResult::Done);
        }
        let tag_name = match read_nbt_string(reader) {
            Ok(x) => x,
            Err(e) => return Err(e),
        };
        let maybe_complex_read = match start_potentially_complex_read(tag_type, reader) {
            Ok(x) => x,
            Err(e) => return Err(e),
        };
        match maybe_complex_read {
            ReadStart::Simple(value) => {
                self.value.insert(tag_name, value);
                Ok(ComplexReadResult::NotFinished)
            },
            ReadStart::Complex(read_complex) => {
                self.name_of_current_value = Some(tag_name);
                Ok(ComplexReadResult::DescendInto(read_complex))
            },
        }
    }

    fn descended_read_complete(&mut self, value: Value)
        requires
            old(self).name_of_current_value is Some,
        ensures
            final(self).model() == fold(old(self).model(), value.model()),
    {
        let mut name: Option<String> = None;
        std::mem::swap(&mut name, &mut self.name_of_current_value);
        match name {
            Some(n) => {
                self.value.insert(n, value);
            },
            None => {},
        }
    }

    fn final_value(self) -> (r: Value)
        ensures
            r.model() == final_model(self.model()),
            r is Compound,
    {
        Value::Compound(self.value)
    }
}

impl ReadingListOfList {
    spec fn model(&self) -> FrameModel {
        FrameModel::Elems(TAG_LIST, self.items_remaining as nat, lists_model(self.value@))
    }

    fn continue_read(&mut self, reader: &mut ByteReader) -> (r: Result<
        ComplexReadResult,
        NbtReadError,
    >)
        requires
            old(reader).wf(),
        ensures
            final(reader).wf(),
            final(reader).bytes() == old(reader).bytes(),
            step_outcome(
                old(reader).bytes(),
                old(self).model(),
                old(reader).position(),
                r,
                final(self).model(),
                final(reader).position(),
            ),
            r matches Ok(ComplexReadResult::DescendInto(c)) ==> !(c is Compound)
                && final(self).value@ == old(self).value@ && fresh_frame(
                old(reader).bytes(),
                old(reader).position(),
                TAG_LIST,
                c,
                final(reader).position(),
            ),
            old(self).items_remaining == 0 ==> (r matches Ok(ComplexReadResult::Done))
                && final(self).items_remaining == 0 && final(self).value@ == old(self).value@
                && final(reader).position() == old(reader).position(),
            old(self).items_remaining > 0 && fits(old(reader).bytes(), old(reader).position(), 5)
                && (old(reader).bytes()[old(reader).position()] == TAG_LIST || old(reader).bytes()[old(reader).position()]
                == TAG_COMPOUND) ==> (r matches Ok(ComplexReadResult::DescendInto(_))),
            r matches Err(e) ==> old(self).items_remaining > 0 && spec_value(
                old(reader).bytes(),
                old(reader).position(),
                TAG_LIST,
            ) == Err::<(ValueModel, nat), Fault>(e.fault()),
            old(self).items_remaining > 0 && r is Ok ==> final(self).items_remaining
                == old(self).items_remaining - 1 && ((r matches Ok(
                ComplexReadResult::NotFinished,
            )) <==> !(fits(old(reader).bytes(), old(reader).position(), 5) && (old(reader).bytes()[old(reader).position()] == TAG_LIST || old(reader).bytes()[old(reader).position()] == TAG_COMPOUND))),
            r matches Ok(ComplexReadResult::NotFinished) ==> final(self).value@.len()
                == old(self).value@.len() + 1 && final(self).value@.drop_last() == old(self).value@ && spec_value(old(reader).bytes(), old(reader).position(), TAG_LIST)
                == Ok::<(ValueModel, nat), Fault>(
                (
                    ValueModel::List(final(self).value@.last().model()),
                    (final(reader).position() - old(reader).position()) as nat,
                ),
            ),
    {
        if self.items_remaining == 0 {
            return Ok(ComplexReadResult::Done);
        }
        let ghost b = reader.bytes();
        let ghost p = reader.position();
        let maybe_complex_read = match start_potentially_complex_read(TAG_LIST, reader) {
            Ok(x) => x,
            Err(e) => return Err(e),
        };
        proof {
            lemma_elems_step(b, TAG_LIST, self.items_remaining as nat, lists_model(self.value@), p);
        }
        self.items_remaining = self.items_remaining - 1;
        match maybe_complex_read {
            ReadStart::Simple(inner_value) => {
                match inner_value {
                    Value::List(inner_list) => {
                        let ghost before = self.value@;
                        self.value.push(inner_list);
                        proof {
                            assert(self.value@.drop_last() =~= before);
                        }
                    },
                    _ => {},
                }
                Ok(ComplexReadResult::NotFinished)
            },
            ReadStart::Complex(reading_complex) => {
                Ok(ComplexReadResult::DescendInto(reading_complex))
            },
        }
    }

    fn descended_read_complete(&mut self, inner_value: Value)
        requires
            inner_value is List,
        ensures
            final(self).model() == fold(old(self).model(), inner_value.model()),
    {
        match inner_value {
            Value::List(inner_list) => {
                let ghost before = self.value@;
                self.value.push(inner_list);
                proof {
                    assert(self.value@.drop_last() =~= before);
                }
            },
            _ => {},
        }
    }

    fn final_value(self) -> (r: Value)
        ensures
            r.model() == final_model(self.model()),
            r is List,
    {
        Value::List(List::List(self.value))
    }
}

impl ReadingListOfCompound {
    spec fn model(&self) -> FrameModel {
        FrameModel::Elems(TAG_COMPOUND, self.items_remaining as nat, compounds_model(self.value@))
    }

    fn continue_read(&mut self, reader: &mut ByteReader) -> (r: Result<
        ComplexReadResult,
        NbtReadError,
    >)
        requires
            old(reader).wf(),
        ensures
            final(reader).wf(),
            final(reader).bytes() == old(reader).bytes(),
            step_outcome(
                old(reader).bytes(),
                old(self).model(),
                old(reader).position(),
                r,
                final(self).model(),
                final(reader).position(),
            ),
            old(self).items_remaining == 0 ==> (r matches Ok(ComplexReadResult::Done))
                && final(self).items_remaining == 0 && final(self).value@ == old(self).value@,
            old(self).items_remaining > 0 ==> (r matches Ok(
                ComplexReadResult::DescendInto(ReadingComplex::Compound(c)),
            ) && c.name_of_current_value is None && c.model() == FrameModel::Compound(
                Map::empty(),
                None,
            )) && final(self).items_remaining == old(self).items_remaining - 1 && final(self).value@ == old(self).value@,
            final(reader).position() == old(reader).position(),
            r matches Ok(ComplexReadResult::DescendInto(c)) ==> c is Compound,
    {
        if self.items_remaining == 0 {
            return Ok(ComplexReadResult::Done);
        }
        self.items_remaining = self.items_remaining - 1;
        let reading = ReadingCompound { value: Compound::new(), name_of_current_value: None };
        proof {
            let b = reader.bytes();
            let p = reader.position();
            lemma_elems_step(b, TAG_COMPOUND, old(self).items_remaining as nat, compounds_model(self.value@), p);
            match spec_entries(b, p, Map::empty()) {
                Ok(_) => {},
                Err(_) => {},
            }
        }
        Ok(ComplexReadResult::DescendInto(ReadingComplex::Compound(reading)))
    }

    fn descended_read_complete(&mut self, inner_value: Value)
        requires
            inner_value is Compound,
        ensures
            final(self).model() == fold(old(self).model(), inner_value.model()),
    {
        match inner_value {
            Value::Compound(inner_compound) => {
                let ghost before = self.value@;
                self.value.push(inner_compound);
                proof {
                    assert(self.value@.drop_last() =~= before);
                }
            },
            _ => {},
        }
    }

    fn final_value(self) -> (r: Value)
        ensures
            r.model() == final_model(self.model()),
            r is List,
    {
        Value::List(List::Compound(self.value))
    }
}

impl ReadingComplex {
    spec fn model(&self) -> FrameModel {
        match self {
            ReadingComplex::Compound(c) => c.model(),
            ReadingComplex::ListOfList(l) => l.model(),
            ReadingComplex::ListOfCompound(l) => l.model(),
        }
    }

    /// Whether the value that `child` finishes with can be stored here.
    spec fn accepts_frame(&self, child: ReadingComplex) -> bool {
        match self {
            ReadingComplex::Compound(c) => c.name_of_current_value is Some,
            ReadingComplex::ListOfList(_) => !(child is Compound),
            ReadingComplex::ListOfCompound(_) => child is Compound,
        }
    }

    spec fn same_kind(&self, other: ReadingComplex) -> bool {
        &&& (self is Compound <==> other is Compound)
        &&& (self is ListOfList <==> other is ListOfList)
        &&& (self is ListOfCompound <==> other is ListOfCompound)
    }

    fn continue_read(&mut self, reader: &mut ByteReader) -> (r: Result<
        ComplexReadResult,
        NbtReadError,
    >)
        requires
            old(reader).wf(),
        ensures
            final(reader).wf(),
            final(reader).bytes() == old(reader).bytes(),
            step_outcome(
                old(reader).bytes(),
                old(self).model(),
                old(reader).position(),
                r,
                final(self).model(),
                final(reader).position(),
            ),
            final(self).same_kind(*old(self)),
            r matches Ok(ComplexReadResult::DescendInto(c)) ==> final(self).accepts_frame(c),
    {
        match self {
            ReadingComplex::Compound(c) => c.continue_read(reader),
            ReadingComplex::ListOfList(l) => l.continue_read(reader),
            ReadingComplex::ListOfCompound(l) => l.continue_read(reader),
        }
    }

    fn descended_read_complete(&mut self, value: Value)
        requires
            match *old(self) {
                ReadingComplex::Compound(c) => c.name_of_current_value is Some,
                ReadingComplex::ListOfList(_) => value is List,
                ReadingComplex::ListOfCompound(_) => value is Compound,
            },
        ensures
            final(self).model() == fold(old(self).model(), value.model()),
            final(self).same_kind(*old(self)),
    {
        match self {
            ReadingComplex::Compound(c) => c.descended_read_complete(value),
            ReadingComplex::ListOfList(l) => l.descended_read_complete(value),
            ReadingComplex::ListOfCompound(l) => l.descended_read_complete(value),
        }
    }

    fn final_value(self) -> (r: Value)
        ensures
            r.model() == final_model(self.model()),
            self is Compound ==> r is Compound,
            !(self is Compound) ==> r is List,
    {
        match self {
            ReadingComplex::Compound(c) => c.final_value(),
            ReadingComplex::ListOfList(l) => l.final_value(),
            ReadingComplex::ListOfCompound(l) => l.final_value(),
        }
    }
}

spec fn models(s: Seq<ReadingComplex>) -> Seq<FrameModel> {
    s.map_values(|f: ReadingComplex| f.model())
}

/// Every frame on the stack can take the value of the frame above it.
spec fn stack_ok(below: Seq<ReadingComplex>, top: ReadingComplex) -> bool {
    forall|i: int|
        #![trigger below[i]]
        0 <= i < below.len() ==> below[i].accepts_frame(
            if i + 1 < below.len() {
                below[i + 1]
            } else {
                top
            },
        )
}

proof fn lemma_resume_step(
    b: Seq<u8>,
    below: Seq<FrameModel>,
    f: FrameModel,
    p: int,
    f2: FrameModel,
    p_next: int,
)
    requires
        p_next >= p,
        frame_rest(b, f, p) == shift(frame_rest(b, f2, p_next), (p_next - p) as nat),
    ensures
        resume(b, below, f, p) == resume(b, below, f2, p_next),
{
}

proof fn lemma_resume_descend(
    b: Seq<u8>,
    below: Seq<FrameModel>,
    f: FrameModel,
    p: int,
    f2: FrameModel,
    child: FrameModel,
    p_next: int,
)
    requires
        p_next >= p,
        frame_rest(b, f, p) == chain(b, child, f2, p_next, p),
    ensures
        resume(b, below.push(f2), child, p_next) == resume(b, below, f, p),
{
    assert(below.push(f2).drop_last() =~= below);
    match frame_rest(b, child, p_next) {
        Ok((v, c)) => {
            lemma_resume_step(b, below, f, p, fold(f2, v), p_next + c);
        },
        Err(_) => {},
    }
}

proof fn lemma_loc_total_push(s: Seq<FrameModel>, f: FrameModel)
    ensures
        loc_total(s.push(f)) == loc_total(s) + loc_weight(f),
{
    assert(s.push(f).drop_last() =~= s);
}

/// Decodes one document from `reader`: a root tag, the root name, then the
/// root value. On success the reader stands just past the document; on
/// failure it is left where it started. Nested compounds and lists are read
/// by an explicit stack of frames, never by recursion, so any nesting depth
/// costs heap, not call stack.
pub fn parse_nbt_stream(reader: &mut ByteReader) -> (r: Result<RootValue, NbtReadError>)
    requires
        old(reader).wf(),
    ensures
        final(reader).wf(),
        final(reader).bytes() == old(reader).bytes(),
        match spec_document(old(reader).bytes(), old(reader).position()) {
            Ok((name, v, n)) => r matches Ok(root) && root.name@ == name && root.value.model() == v
                && final(reader).position() == old(reader).position() + n,
            Err(f) => r matches Err(e) && e.fault() == f,
        },
        r is Err ==> final(reader).position() == old(reader).position(),
{
    let start = reader.pos();
    proof {
        reader.lemma_position_bounds();
    }
    match parse_document(reader) {
        Ok(root) => Ok(root),
        Err(e) => {
            reader.rewind(start);
            Err(e)
        },
    }
}

/// Decodes one document, leaving the reader wherever reading stopped.
fn parse_document(reader: &mut ByteReader) -> (r: Result<RootValue, NbtReadError>)
    requires
        old(reader).wf(),
    ensures
        final(reader).wf(),
        final(reader).bytes() == old(reader).bytes(),
        match spec_document(old(reader).bytes(), old(reader).position()) {
            Ok((name, v, n)) => r matches Ok(root) && root.name@ == name && root.value.model() == v
                && final(reader).position() == old(reader).position() + n,
            Err(f) => r matches Err(e) && e.fault() == f,
        },
{
    let ghost b = reader.bytes();
    let ghost p0 = reader.position();
    let root_tag_type = match reader.read_u8() {
        Ok(x) => x,
        Err(e) => return Err(e),
    };
    let root_tag_name = match read_nbt_string(reader) {
        Ok(x) => x,
        Err(e) => return Err(e),
    };
    let read_start = match start_potentially_complex_read(root_tag_type, reader) {
        Ok(x) => x,
        Err(e) => return Err(e),
    };
    let mut top = match read_start {
        ReadStart::Simple(value) => {
            return Ok(RootValue { name: root_tag_name, value: value });
        },
        ReadStart::Complex(reading) => reading,
    };
    let ghost target = resume(b, Seq::empty(), top.model(), reader.position());
    let mut below: Vec<ReadingComplex> = Vec::new();
    proof {
        assert(models(below@) =~= Seq::<FrameModel>::empty());
    }
    loop
        invariant
            reader.wf(),
            reader.bytes() == b,
            b == old(reader).bytes(),
            p0 == old(reader).position(),
            resume(b, models(below@), top.model(), reader.position()) == target,
            stack_ok(below@, top),
            match spec_document(b, p0) {
                Ok((name, v, n)) => name == root_tag_name@ && target == Ok::<(ValueModel, int), Fault>(
                    (v, p0 + n),
                ),
                Err(f) => target == Err::<(ValueModel, int), Fault>(f),
            },
        decreases rem(b, reader.position()), loc_total(models(below@)) + loc_weight(top.model()),
            below.len(),
    {
        let ghost pos = reader.position();
        let ghost f = top.model();
        let ghost old_top = top;
        proof {
            reader.lemma_position_bounds();
        }
        let result = match top.continue_read(reader) {
            Ok(x) => x,
            Err(e) => {
                assert(resume(b, models(below@), f, pos) == Err::<(ValueModel, int), Fault>(e.fault()));
                return Err(e);
            },
        };
        let ghost f2 = top.model();
        let ghost p_next = reader.position();
        proof {
            reader.lemma_position_bounds();
        }
        match result {
            ComplexReadResult::NotFinished => {
                proof {
                    lemma_resume_step(b, models(below@), f, pos, f2, p_next);
                }
            },
            ComplexReadResult::DescendInto(next_read) => {
                proof {
                    lemma_resume_descend(b, models(below@), f, pos, f2, next_read.model(), p_next);
                    lemma_loc_total_push(models(below@), f2);
                }
                let ghost old_below = below@;
                below.push(top);
                top = next_read;
                proof {
                    assert(models(below@) =~= models(old_below).push(f2));
                    assert forall|i: int|
                        #![trigger below@[i]]
                        0 <= i < below@.len() implies below@[i].accepts_frame(
                        if i + 1 < below@.len() {
                            below@[i + 1]
                        } else {
                            top
                        },
                    ) by {
                        if i < old_below.len() {
                            assert(old_below[i].accepts_frame(
                                if i + 1 < old_below.len() {
                                    old_below[i + 1]
                                } else {
                                    old_top
                                },
                            ));
                        }
                    }
                }
            },
            ComplexReadResult::Done => {
                let value = top.final_value();
                let ghost old_below = below@;
                match below.pop() {
                    None => {
                        assert(resume(b, models(below@), f, pos) == Ok::<(ValueModel, int), Fault>(
                            (value.model(), p_next),
                        ));
                        return Ok(RootValue { name: root_tag_name, value: value });
                    },
                    Some(mut working_read) => {
                        proof {
                            assert(old_below.last().accepts_frame(old_top));
                            assert(models(below@) =~= models(old_below).drop_last());
                            assert(models(old_below).last() == working_read.model());
                            assert(loc_total(models(old_below)) == loc_total(
                                models(old_below).drop_last(),
                            ) + loc_weight(models(old_below).last()));
                            assert(resume(b, models(old_below), f, pos) == resume(
                                b,
                                models(below@),
                                fold(working_read.model(), value.model()),
                                p_next,
                            ));
                        }
                        working_read.descended_read_complete(value);
                        top = working_read;
                        proof {
                            assert forall|i: int|
                                #![trigger below@[i]]
                                0 <= i < below@.len() implies below@[i].accepts_frame(
                                if i + 1 < below@.len() {
                                    below@[i + 1]
                                } else {
                                    top
                                },
                            ) by {
                                assert(old_below[i].accepts_frame(
                                    if i + 1 < old_below.len() {
                                        old_below[i + 1]
                                    } else {
                                        old_top
                                    },
                                ));
                            }
                        }
                    },
                }
            },
        }
    }
}


/// Decoding is deterministic: two documents decoded from the same bytes at
/// the same position carry the same name and the same tree, and consume the
/// same number of bytes.
pub proof fn lemma_parse_deterministic(
    b: Seq<u8>,
    p: int,
    x: RootValue,
    nx: nat,
    y: RootValue,
    ny: nat,
)
    requires
        spec_document(b, p) == Ok::<(Seq<char>, ValueModel, nat), Fault>(
            (x.name@, x.value.model(), nx),
        ),
        spec_document(b, p) == Ok::<(Seq<char>, ValueModel, nat), Fault>(
            (y.name@, y.value.model(), ny),
        ),
    ensures
        x.name@ == y.name@,
        x.value.model() == y.value.model(),
        nx == ny,
{
}

} // verus!
