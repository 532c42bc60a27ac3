use vstd::prelude::*;

pub mod bits;
pub mod container;
pub mod de;
pub mod encoding;
pub mod error;
pub mod laws;
pub mod ser;
pub mod value;

pub use bits::{BitBuffer, BitOrdering};
pub use container::{BitContainer, ContainerSize};
pub use de::BitDeserializer;
pub use encoding::{EndianEncoding, Endianness};
pub use error::Error;
pub use ser::BitSerializer;
pub use value::{Shape, Value, VariantShape};

verus! {

/// Serialize a structured value into a fresh bit buffer under the given bit
/// ordering and encoding strategy.  A failed serialize hands back no partial
/// buffer.
pub fn serialize(value: &Value, order: BitOrdering, encoding: EndianEncoding) -> (r: Result<
    BitBuffer,
    Error,
>)
    ensures
        value::enc_failure(value@) is None ==> (r matches Ok(buf) && buf.ordering() == order
            && buf@ == value::enc(order, encoding.endianness, value@)),
        value::enc_failure(value@) matches Some(k) ==> (r matches Err(e) && ser::reports(k, e)),
{
    let mut serializer = BitSerializer::new(order, encoding);
    match serializer.serialize_value(value) {
        Ok(()) => Ok(serializer.vec),
        Err(e) => Err(e),
    }
}

/// Deserialize one value of the target shape from a borrowed bit sequence,
/// consuming bits from its start in the order they were written.  Bits after
/// the decoded value stay unread: the shape alone decides how much is
/// consumed.
pub fn deserialize(bits: &BitBuffer, shape: &Shape, encoding: EndianEncoding) -> (r: Result<
    Value,
    Error,
>)
    ensures
        ({
            let d = value::dec(bits.ordering(), encoding.endianness, bits@, 0, *shape);
            match r {
                Ok(v) => d matches value::DecodeResult::Done(sv, end) && v@ == sv,
                Err(e) => d matches value::DecodeResult::Fail(k) && de::fails_with(k, e),
            }
        }),
{
    let mut deserializer = BitDeserializer::new(bits, encoding);
    deserializer.deserialize_value(shape)
}

} // verus!
