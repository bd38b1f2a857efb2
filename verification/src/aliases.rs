//! Names of the AMQP 0-9-1 domains, as aliases of the types that hold them.
use vstd::prelude::*;
use crate::field_table::FieldTable;
use crate::long_str::LongStr;
use crate::short_str::ShortStr;

verus! {

/// A single bit; bits are packed into octets on the wire, so no type of its
/// own holds one.
pub type Bit = u8;

pub type Octect = u8;

/// On the wire 0 is false, any other value true.
pub type Boolean = bool;

pub type ShortShortUint = u8;

pub type ShortShortInt = i8;

pub type ShortUint = u16;

pub type ShortInt = i16;

pub type LongUint = u32;

pub type LongInt = i32;

pub type LongLongUint = u64;

pub type LongLongInt = i64;

pub type TimeStamp = u64;

pub type FieldName = ShortStr;

/// The channel id field of a frame (RabbitMQ's definition names a long
/// string here, used only in `open-ok`).
pub type AmqpChannelId = ShortUint;

pub type AmqpClassId = ShortUint;

pub type AmqpMethodId = ShortUint;

pub type AmqpConsumerTag = ShortStr;

pub type AmqpDeliveryTag = LongLongUint;

pub type AmqpDestination = ShortStr;

pub type AmqpDuration = LongLongUint;

pub type AmqpExchangeName = ShortStr;

pub type AmqpMessageCount = LongUint;

pub type AmqpOffset = LongUint;

pub type AmqpPath = ShortStr;

pub type AmqpPeerProperties = FieldTable;

pub type AmqpQueueName = ShortStr;

pub type AmqpReference = LongStr;

pub type AmqpRejectCode = ShortUint;

pub type AmqpRejectText = ShortStr;

pub type AmqpReplyCode = ShortUint;

pub type AmqpReplyText = ShortStr;

pub type AmqpSecurityToken = LongStr;

pub type AmqpTable = FieldTable;

pub type AmqpTimeStamp = TimeStamp;

} // verus!
