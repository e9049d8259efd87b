//! Core data structures for a Scott Adams game, together with the packing
//! arithmetic that the file format uses to store several fields in one
//! integer.

use vstd::arithmetic::div_mod::{
    lemma_fundamental_div_mod, lemma_fundamental_div_mod_converse, lemma_mod_bound,
};
use crate::tokenizer::{Stream, TokenV};
use vstd::prelude::*;

pub mod parser;
pub mod writer;

verus! {

/// Splits `num` into the Euclidean quotient and remainder by `d`: the unique
/// pair with `num == q * d + r` and `0 <= r < d`. The file format packs two
/// fields into one integer this way (quotient and remainder).
pub fn div_rem_euclid(num: i32, d: u32) -> (r: (i32, u32))
    requires
        1 <= d,
    ensures
        r.0 == num as int / d as int,
        r.1 == num as int % d as int,
{
    if num >= 0 {
        let q: u32 = (num as u32) / d;
        let m: u32 = (num as u32) % d;
        (q as i32, m)
    } else {
        let mag: u64 = (-(num as i64)) as u64;
        let q: u64 = mag / (d as u64);
        let m: u64 = mag % (d as u64);
        proof {
            lemma_fundamental_div_mod(mag as int, d as int);
            lemma_mod_bound(mag as int, d as int);
            assert(mag as int == d as int * q as int + m as int);
            assert(q <= mag) by (nonlinear_arith)
                requires
                    mag as int == d as int * q as int + m as int,
                    1 <= d,
                    0 <= m,
                    0 <= q,
            ;
        }
        if m == 0 {
            proof {
                assert(num as int == d as int * (-(q as int)) + 0) by (nonlinear_arith)
                    requires
                        mag as int == d as int * q as int,
                        num as int == -(mag as int),
                ;
                lemma_fundamental_div_mod_converse(num as int, d as int, -(q as int), 0);
            }
            ((-(q as i64)) as i32, 0)
        } else {
            proof {
                assert(num as int == d as int * (-(q as int) - 1) + (d as int - m as int))
                    by (nonlinear_arith)
                    requires
                        mag as int == d as int * q as int + m as int,
                        num as int == -(mag as int),
                ;
                assert(q < 0x8000_0000) by (nonlinear_arith)
                    requires
                        mag as int == d as int * q as int + m as int,
                        2 <= d,
                        0 <= q,
                        0 < m,
                        mag <= 0x8000_0000,
                ;
                lemma_fundamental_div_mod_converse(
                    num as int,
                    d as int,
                    -(q as int) - 1,
                    d as int - m as int,
                );
            }
            ((-(q as i64) - 1) as i32, ((d as u64) - m) as u32)
        }
    }
}

/// Marks, in the `light_duration` field of the `Header` struct, a light
/// source that never expires.
pub const ETERNAL_LIGHT: i32 = -1;

/// Marks, in the `location` field of the `Item` struct, an item held in the
/// player's inventory.
pub const INVENTORY: i32 = -1;

/// Defines the header: twelve signed integers in fixed file order. The
/// item, action, word, room and message counts are stored on disk as one
/// less than the true count and are adjusted on read and write.
#[derive(Clone, Copy, Debug, PartialEq, Eq, Structural)]
pub struct Header {
    /// Unknown purpose.
    pub unknown0: i32,
    /// Number of items.
    pub num_items: i32,
    /// Number of actions.
    pub num_actions: i32,
    /// Number of both nouns and verbs.
    pub num_words: i32,
    /// Number of rooms.
    pub num_rooms: i32,
    /// Maximum number of inventory items.
    pub max_inventory: i32,
    /// 0-based index of the initial room.
    pub starting_room: i32,
    /// Number of treasures (technically redundant).
    pub num_treasures: i32,
    /// Word length (3, 4, or 5).
    pub word_length: i32,
    /// Number of turns for light, or `ETERNAL_LIGHT`.
    pub light_duration: i32,
    /// Number of messages.
    pub num_messages: i32,
    /// 0-based index of the treasure room for scoring.
    pub treasure_room: i32,
}

/// Defines a condition: a parameterized predicate gating an action. A
/// condition is stored on disk as one integer, `type + 20 * parameter`.
#[derive(Clone, Copy, Debug, PartialEq, Eq, Structural)]
pub enum Condition {
    Parameter(i32),
    ItemCarried(i32),
    ItemInRoom(i32),
    ItemPresent(i32),
    PlayerInRoom(i32),
    ItemNotInRoom(i32),
    ItemNotCarried(i32),
    PlayerNotInRoom(i32),
    BitSet(i32),
    BitClear(i32),
    InventoryNotEmpty(i32),
    InventoryEmpty(i32),
    ItemNotPresent(i32),
    ItemInGame(i32),
    ItemNotInGame(i32),
    CounterLE(i32),
    CounterGE(i32),
    ItemMoved(i32),
    ItemNotMoved(i32),
    CounterEQ(i32),
}

/// The condition type: the Euclidean remainder of the packed integer by 20,
/// so always in `[0, 20)` and one constructor per value.
pub open spec fn cond_type(c: Condition) -> int {
    match c {
        Condition::Parameter(_) => 0,
        Condition::ItemCarried(_) => 1,
        Condition::ItemInRoom(_) => 2,
        Condition::ItemPresent(_) => 3,
        Condition::PlayerInRoom(_) => 4,
        Condition::ItemNotInRoom(_) => 5,
        Condition::ItemNotCarried(_) => 6,
        Condition::PlayerNotInRoom(_) => 7,
        Condition::BitSet(_) => 8,
        Condition::BitClear(_) => 9,
        Condition::InventoryNotEmpty(_) => 10,
        Condition::InventoryEmpty(_) => 11,
        Condition::ItemNotPresent(_) => 12,
        Condition::ItemInGame(_) => 13,
        Condition::ItemNotInGame(_) => 14,
        Condition::CounterLE(_) => 15,
        Condition::CounterGE(_) => 16,
        Condition::ItemMoved(_) => 17,
        Condition::ItemNotMoved(_) => 18,
        Condition::CounterEQ(_) => 19,
    }
}

/// The condition parameter: the Euclidean quotient of the packed integer by 20.
pub open spec fn cond_param(c: Condition) -> i32 {
    match c {
        Condition::Parameter(p) => p,
        Condition::ItemCarried(p) => p,
        Condition::ItemInRoom(p) => p,
        Condition::ItemPresent(p) => p,
        Condition::PlayerInRoom(p) => p,
        Condition::ItemNotInRoom(p) => p,
        Condition::ItemNotCarried(p) => p,
        Condition::PlayerNotInRoom(p) => p,
        Condition::BitSet(p) => p,
        Condition::BitClear(p) => p,
        Condition::InventoryNotEmpty(p) => p,
        Condition::InventoryEmpty(p) => p,
        Condition::ItemNotPresent(p) => p,
        Condition::ItemInGame(p) => p,
        Condition::ItemNotInGame(p) => p,
        Condition::CounterLE(p) => p,
        Condition::CounterGE(p) => p,
        Condition::ItemMoved(p) => p,
        Condition::ItemNotMoved(p) => p,
        Condition::CounterEQ(p) => p,
    }
}

/// The packed integer that stores a condition on disk.
pub open spec fn cond_code(c: Condition) -> int {
    cond_type(c) + 20 * cond_param(c)
}

/// Builds the condition with the given type (in `[0, 20)`) and parameter.
pub open spec fn cond_from_parts(t: int, p: i32) -> Condition {
    if t == 0 {
        Condition::Parameter(p)
    } else if t == 1 {
        Condition::ItemCarried(p)
    } else if t == 2 {
        Condition::ItemInRoom(p)
    } else if t == 3 {
        Condition::ItemPresent(p)
    } else if t == 4 {
        Condition::PlayerInRoom(p)
    } else if t == 5 {
        Condition::ItemNotInRoom(p)
    } else if t == 6 {
        Condition::ItemNotCarried(p)
    } else if t == 7 {
        Condition::PlayerNotInRoom(p)
    } else if t == 8 {
        Condition::BitSet(p)
    } else if t == 9 {
        Condition::BitClear(p)
    } else if t == 10 {
        Condition::InventoryNotEmpty(p)
    } else if t == 11 {
        Condition::InventoryEmpty(p)
    } else if t == 12 {
        Condition::ItemNotPresent(p)
    } else if t == 13 {
        Condition::ItemInGame(p)
    } else if t == 14 {
        Condition::ItemNotInGame(p)
    } else if t == 15 {
        Condition::CounterLE(p)
    } else if t == 16 {
        Condition::CounterGE(p)
    } else if t == 17 {
        Condition::ItemMoved(p)
    } else if t == 18 {
        Condition::ItemNotMoved(p)
    } else {
        Condition::CounterEQ(p)
    }
}

/// The condition that the packed integer `num` decodes to: type is the
/// Euclidean remainder by 20, parameter the Euclidean quotient. Every
/// integer decodes to some condition, so no invalid case exists.
pub open spec fn spec_cond_of(num: int) -> Condition {
    cond_from_parts(num % 20, (num / 20) as i32)
}

/// Whether encoding the condition back into one integer fits in 32 bits.
/// Every condition decoded from a 32-bit integer satisfies this.
pub open spec fn cond_encodable(c: Condition) -> bool {
    i32::MIN <= cond_code(c) <= i32::MAX
}

impl Condition {
    /// Converts an integer expressed as `type + 20 * parameter` into a
    /// `Condition`; the exact inverse of `to_i32`.
    pub fn from_i32(num: i32) -> (c: Condition)
        ensures
            c == spec_cond_of(num as int),
            cond_code(c) == num,
            cond_encodable(c),
    {
        let (p, t) = div_rem_euclid(num, 20);
        proof {
            lemma_fundamental_div_mod(num as int, 20);
        }
        if t == 0 {
            Condition::Parameter(p)
        } else if t == 1 {
            Condition::ItemCarried(p)
        } else if t == 2 {
            Condition::ItemInRoom(p)
        } else if t == 3 {
            Condition::ItemPresent(p)
        } else if t == 4 {
            Condition::PlayerInRoom(p)
        } else if t == 5 {
            Condition::ItemNotInRoom(p)
        } else if t == 6 {
            Condition::ItemNotCarried(p)
        } else if t == 7 {
            Condition::PlayerNotInRoom(p)
        } else if t == 8 {
            Condition::BitSet(p)
        } else if t == 9 {
            Condition::BitClear(p)
        } else if t == 10 {
            Condition::InventoryNotEmpty(p)
        } else if t == 11 {
            Condition::InventoryEmpty(p)
        } else if t == 12 {
            Condition::ItemNotPresent(p)
        } else if t == 13 {
            Condition::ItemInGame(p)
        } else if t == 14 {
            Condition::ItemNotInGame(p)
        } else if t == 15 {
            Condition::CounterLE(p)
        } else if t == 16 {
            Condition::CounterGE(p)
        } else if t == 17 {
            Condition::ItemMoved(p)
        } else if t == 18 {
            Condition::ItemNotMoved(p)
        } else {
            Condition::CounterEQ(p)
        }
    }

    /// Converts a `Condition` back into the packed integer that stores it;
    /// the exact inverse of `from_i32`.
    pub fn to_i32(&self) -> (r: i32)
        requires
            cond_encodable(*self),
        ensures
            r == cond_code(*self),
            spec_cond_of(r as int) == *self,
    {
        let t: i32 = match *self {
            Condition::Parameter(_) => 0,
            Condition::ItemCarried(_) => 1,
            Condition::ItemInRoom(_) => 2,
            Condition::ItemPresent(_) => 3,
            Condition::PlayerInRoom(_) => 4,
            Condition::ItemNotInRoom(_) => 5,
            Condition::ItemNotCarried(_) => 6,
            Condition::PlayerNotInRoom(_) => 7,
            Condition::BitSet(_) => 8,
            Condition::BitClear(_) => 9,
            Condition::InventoryNotEmpty(_) => 10,
            Condition::InventoryEmpty(_) => 11,
            Condition::ItemNotPresent(_) => 12,
            Condition::ItemInGame(_) => 13,
            Condition::ItemNotInGame(_) => 14,
            Condition::CounterLE(_) => 15,
            Condition::CounterGE(_) => 16,
            Condition::ItemMoved(_) => 17,
            Condition::ItemNotMoved(_) => 18,
            Condition::CounterEQ(_) => 19,
        };
        let p: i32 = match *self {
            Condition::Parameter(p) => p,
            Condition::ItemCarried(p) => p,
            Condition::ItemInRoom(p) => p,
            Condition::ItemPresent(p) => p,
            Condition::PlayerInRoom(p) => p,
            Condition::ItemNotInRoom(p) => p,
            Condition::ItemNotCarried(p) => p,
            Condition::PlayerNotInRoom(p) => p,
            Condition::BitSet(p) => p,
            Condition::BitClear(p) => p,
            Condition::InventoryNotEmpty(p) => p,
            Condition::InventoryEmpty(p) => p,
            Condition::ItemNotPresent(p) => p,
            Condition::ItemInGame(p) => p,
            Condition::ItemNotInGame(p) => p,
            Condition::CounterLE(p) => p,
            Condition::CounterGE(p) => p,
            Condition::ItemMoved(p) => p,
            Condition::ItemNotMoved(p) => p,
            Condition::CounterEQ(p) => p,
        };
        let r: i32 = ((t as i64) + 20 * (p as i64)) as i32;
        proof {
            lemma_fundamental_div_mod_converse(r as int, 20, p as int, t as int);
        }
        r
    }
}

/// Defines the type of a sub-action. Each action carries four sub-actions,
/// stored two per integer as `first * 150 + second`. Raw values `1..=51`
/// and `102..=150` both print a message (indexing messages `0..=50` and
/// `51..=99` respectively), `52..=89` are built-in verbs, and anything else
/// is an unrecognized opcode preserved verbatim so that re-encoding
/// reproduces it. `RemoveItem`/`DescribeRoom` each have two distinct raw
/// values, told apart by their `bool` so that neither collapses into the
/// other.
#[derive(Clone, Copy, Debug, PartialEq, Eq, Structural)]
pub enum ActionType {
    Nothing,
    Message(i32),
    GetItem,
    DropItem,
    MovePlayer,
    /// `true` for the duplicate opcode with raw value 59.
    RemoveItem(bool),
    SetDarkness,
    ClearDarkness,
    SetBit,
    ClearBit,
    Death,
    PutItem,
    GameOver,
    /// `true` for the duplicate opcode with raw value 76.
    DescribeRoom(bool),
    Score,
    Inventory,
    SetBit0,
    ClearBit0,
    RefillLight,
    ClearScreen,
    SaveGame,
    SwapItems,
    Continue,
    TakeItem,
    MoveItemToItem,
    DecrementCounter,
    PrintCounter,
    SetCounter,
    SwapLocation,
    SelectCounter,
    AddToCounter,
    SubFromCounter,
    EchoNoun,
    EchoNounCR,
    EchoCR,
    SwapLocationN,
    Delay,
    DrawPicture,
    Invalid(i32),
}

/// The raw opcode that stores a sub-action on disk.
pub open spec fn at_code(a: ActionType) -> int {
    match a {
        ActionType::Nothing => 0,
        ActionType::Message(n) => if 0 <= n <= 50 {
            n + 1
        } else if 51 <= n <= 99 {
            n + 51
        } else {
            0
        },
        ActionType::GetItem => 52,
        ActionType::DropItem => 53,
        ActionType::MovePlayer => 54,
        ActionType::RemoveItem(dup) => if !dup {
            55
        } else {
            59
        },
        ActionType::SetDarkness => 56,
        ActionType::ClearDarkness => 57,
        ActionType::SetBit => 58,
        ActionType::ClearBit => 60,
        ActionType::Death => 61,
        ActionType::PutItem => 62,
        ActionType::GameOver => 63,
        ActionType::DescribeRoom(dup) => if !dup {
            64
        } else {
            76
        },
        ActionType::Score => 65,
        ActionType::Inventory => 66,
        ActionType::SetBit0 => 67,
        ActionType::ClearBit0 => 68,
        ActionType::RefillLight => 69,
        ActionType::ClearScreen => 70,
        ActionType::SaveGame => 71,
        ActionType::SwapItems => 72,
        ActionType::Continue => 73,
        ActionType::TakeItem => 74,
        ActionType::MoveItemToItem => 75,
        ActionType::DecrementCounter => 77,
        ActionType::PrintCounter => 78,
        ActionType::SetCounter => 79,
        ActionType::SwapLocation => 80,
        ActionType::SelectCounter => 81,
        ActionType::AddToCounter => 82,
        ActionType::SubFromCounter => 83,
        ActionType::EchoNoun => 84,
        ActionType::EchoNounCR => 85,
        ActionType::EchoCR => 86,
        ActionType::SwapLocationN => 87,
        ActionType::Delay => 88,
        ActionType::DrawPicture => 89,
        ActionType::Invalid(n) => n as int,
    }
}

/// The sub-action that the raw opcode `num` decodes to.
pub open spec fn spec_at_of(num: int) -> ActionType {
    if num == 0 {
        ActionType::Nothing
    } else if 1 <= num <= 51 {
        ActionType::Message((num - 1) as i32)
    } else if num == 52 {
        ActionType::GetItem
    } else if num == 53 {
        ActionType::DropItem
    } else if num == 54 {
        ActionType::MovePlayer
    } else if num == 55 {
        ActionType::RemoveItem(false)
    } else if num == 56 {
        ActionType::SetDarkness
    } else if num == 57 {
        ActionType::ClearDarkness
    } else if num == 58 {
        ActionType::SetBit
    } else if num == 59 {
        ActionType::RemoveItem(true)
    } else if num == 60 {
        ActionType::ClearBit
    } else if num == 61 {
        ActionType::Death
    } else if num == 62 {
        ActionType::PutItem
    } else if num == 63 {
        ActionType::GameOver
    } else if num == 64 {
        ActionType::DescribeRoom(false)
    } else if num == 65 {
        ActionType::Score
    } else if num == 66 {
        ActionType::Inventory
    } else if num == 67 {
        ActionType::SetBit0
    } else if num == 68 {
        ActionType::ClearBit0
    } else if num == 69 {
        ActionType::RefillLight
    } else if num == 70 {
        ActionType::ClearScreen
    } else if num == 71 {
        ActionType::SaveGame
    } else if num == 72 {
        ActionType::SwapItems
    } else if num == 73 {
        ActionType::Continue
    } else if num == 74 {
        ActionType::TakeItem
    } else if num == 75 {
        ActionType::MoveItemToItem
    } else if num == 76 {
        ActionType::DescribeRoom(true)
    } else if num == 77 {
        ActionType::DecrementCounter
    } else if num == 78 {
        ActionType::PrintCounter
    } else if num == 79 {
        ActionType::SetCounter
    } else if num == 80 {
        ActionType::SwapLocation
    } else if num == 81 {
        ActionType::SelectCounter
    } else if num == 82 {
        ActionType::AddToCounter
    } else if num == 83 {
        ActionType::SubFromCounter
    } else if num == 84 {
        ActionType::EchoNoun
    } else if num == 85 {
        ActionType::EchoNounCR
    } else if num == 86 {
        ActionType::EchoCR
    } else if num == 87 {
        ActionType::SwapLocationN
    } else if num == 88 {
        ActionType::Delay
    } else if num == 89 {
        ActionType::DrawPicture
    } else if 102 <= num <= 150 {
        ActionType::Message((num - 51) as i32)
    } else {
        ActionType::Invalid(num as i32)
    }
}

/// A message sub-action can only index one of the hundred addressable
/// messages, and an unrecognized opcode only carries a raw value that no
/// recognized sub-action uses; every sub-action decoded from an integer
/// satisfies this.
pub open spec fn at_wf(a: ActionType) -> bool {
    match a {
        ActionType::Message(n) => 0 <= n <= 99,
        ActionType::Invalid(n) => !(0 <= n <= 89) && !(102 <= n <= 150),
        _ => true,
    }
}

impl ActionType {
    /// Converts a raw opcode into an `ActionType`; the exact inverse of
    /// `to_i32`.
    pub fn from_i32(num: i32) -> (a: ActionType)
        ensures
            a == spec_at_of(num as int),
            at_code(a) == num,
            at_wf(a),
    {
        if num == 0 {
            ActionType::Nothing
        } else if 1 <= num && num <= 51 {
            ActionType::Message(num - 1)
        } else if num == 52 {
            ActionType::GetItem
        } else if num == 53 {
            ActionType::DropItem
        } else if num == 54 {
            ActionType::MovePlayer
        } else if num == 55 {
            ActionType::RemoveItem(false)
        } else if num == 56 {
            ActionType::SetDarkness
        } else if num == 57 {
            ActionType::ClearDarkness
        } else if num == 58 {
            ActionType::SetBit
        } else if num == 59 {
            ActionType::RemoveItem(true)
        } else if num == 60 {
            ActionType::ClearBit
        } else if num == 61 {
            ActionType::Death
        } else if num == 62 {
            ActionType::PutItem
        } else if num == 63 {
            ActionType::GameOver
        } else if num == 64 {
            ActionType::DescribeRoom(false)
        } else if num == 65 {
            ActionType::Score
        } else if num == 66 {
            ActionType::Inventory
        } else if num == 67 {
            ActionType::SetBit0
        } else if num == 68 {
            ActionType::ClearBit0
        } else if num == 69 {
            ActionType::RefillLight
        } else if num == 70 {
            ActionType::ClearScreen
        } else if num == 71 {
            ActionType::SaveGame
        } else if num == 72 {
            ActionType::SwapItems
        } else if num == 73 {
            ActionType::Continue
        } else if num == 74 {
            ActionType::TakeItem
        } else if num == 75 {
            ActionType::MoveItemToItem
        } else if num == 76 {
            ActionType::DescribeRoom(true)
        } else if num == 77 {
            ActionType::DecrementCounter
        } else if num == 78 {
            ActionType::PrintCounter
        } else if num == 79 {
            ActionType::SetCounter
        } else if num == 80 {
            ActionType::SwapLocation
        } else if num == 81 {
            ActionType::SelectCounter
        } else if num == 82 {
            ActionType::AddToCounter
        } else if num == 83 {
            ActionType::SubFromCounter
        } else if num == 84 {
            ActionType::EchoNoun
        } else if num == 85 {
            ActionType::EchoNounCR
        } else if num == 86 {
            ActionType::EchoCR
        } else if num == 87 {
            ActionType::SwapLocationN
        } else if num == 88 {
            ActionType::Delay
        } else if num == 89 {
            ActionType::DrawPicture
        } else if 102 <= num && num <= 150 {
            ActionType::Message(num - 51)
        } else {
            ActionType::Invalid(num)
        }
    }

    /// Converts an `ActionType` back to the raw opcode that stores it; the
    /// exact inverse of `from_i32` for every sub-action that `from_i32` can
    /// produce.
    pub fn to_i32(&self) -> (r: i32)
        ensures
            r == at_code(*self),
            at_wf(*self) ==> spec_at_of(r as int) == *self,
    {
        match *self {
            ActionType::Nothing => 0,
            ActionType::Message(num) => {
                if 0 <= num && num <= 50 {
                    num + 1
                } else if 51 <= num && num <= 99 {
                    num + 51
                } else {
                    0
                }
            },
            ActionType::GetItem => 52,
            ActionType::DropItem => 53,
            ActionType::MovePlayer => 54,
            ActionType::RemoveItem(dup) => if !dup {
                55
            } else {
                59
            },
            ActionType::SetDarkness => 56,
            ActionType::ClearDarkness => 57,
            ActionType::SetBit => 58,
            ActionType::ClearBit => 60,
            ActionType::Death => 61,
            ActionType::PutItem => 62,
            ActionType::GameOver => 63,
            ActionType::DescribeRoom(dup) => if !dup {
                64
            } else {
                76
            },
            ActionType::Score => 65,
            ActionType::Inventory => 66,
            ActionType::SetBit0 => 67,
            ActionType::ClearBit0 => 68,
            ActionType::RefillLight => 69,
            ActionType::ClearScreen => 70,
            ActionType::SaveGame => 71,
            ActionType::SwapItems => 72,
            ActionType::Continue => 73,
            ActionType::TakeItem => 74,
            ActionType::MoveItemToItem => 75,
            ActionType::DecrementCounter => 77,
            ActionType::PrintCounter => 78,
            ActionType::SetCounter => 79,
            ActionType::SwapLocation => 80,
            ActionType::SelectCounter => 81,
            ActionType::AddToCounter => 82,
            ActionType::SubFromCounter => 83,
            ActionType::EchoNoun => 84,
            ActionType::EchoNounCR => 85,
            ActionType::EchoCR => 86,
            ActionType::SwapLocationN => 87,
            ActionType::Delay => 88,
            ActionType::DrawPicture => 89,
            ActionType::Invalid(num) => num,
        }
    }
}

/// Defines a single action: a verb/noun trigger (packed on disk as
/// `verb_index * 150 + noun_index`), exactly five conditions, exactly four
/// sub-actions (packed two per integer), and an optional comment read from
/// a separate block later in the file.
#[derive(Debug)]
pub struct Action {
    /// The verb index.
    pub verb_index: i32,
    /// The noun index.
    pub noun_index: i32,
    /// The conditions (five in all).
    pub conditions: [Condition; 5],
    /// The sub-actions (four in all).
    pub actions: [ActionType; 4],
    /// The comment (purely for documentation); an empty stored comment
    /// becomes `None`.
    pub comment: Option<Vec<u8>>,
}

/// The mathematical value of an `Action`.
pub ghost struct ActionV {
    pub verb_index: i32,
    pub noun_index: i32,
    pub conditions: Seq<Condition>,
    pub actions: Seq<ActionType>,
    pub comment: Option<Seq<u8>>,
}

impl View for Action {
    type V = ActionV;

    open spec fn view(&self) -> ActionV {
        ActionV {
            verb_index: self.verb_index,
            noun_index: self.noun_index,
            conditions: self.conditions@,
            actions: self.actions@,
            comment: match self.comment {
                Some(ref c) => Some(c@),
                None => None,
            },
        }
    }
}

/// Defines a word: either a verb or a noun. The file stores a word that is
/// a synonym of the one before it with a leading `*`, which the decoder
/// strips.
#[derive(Debug)]
pub struct Word {
    /// The word text (the file stores the full string; the game engine
    /// would truncate it to the header's word length).
    pub word: Vec<u8>,
    /// Indicates this word is a synonym of the previous word.
    pub is_synonym: bool,
}

/// The mathematical value of a `Word`.
pub ghost struct WordV {
    pub word: Seq<u8>,
    pub is_synonym: bool,
}

impl View for Word {
    type V = WordV;

    open spec fn view(&self) -> WordV {
        WordV { word: self.word@, is_synonym: self.is_synonym }
    }
}

/// Defines a room: six exits (north, south, east, west, up, down; each a
/// 0-based room index or 0 for none) followed by a description. The file
/// stores a description to be printed without the "I'm in a" prefix with a
/// leading `*`, which the decoder strips.
#[derive(Debug)]
pub struct Room {
    /// The room exits.
    pub exits: [i32; 6],
    /// The room description.
    pub description: Vec<u8>,
    /// Indicates the description is to be printed literally.
    pub is_literal: bool,
}

/// The mathematical value of a `Room`.
pub ghost struct RoomV {
    pub exits: Seq<i32>,
    pub description: Seq<u8>,
    pub is_literal: bool,
}

impl View for Room {
    type V = RoomV;

    open spec fn view(&self) -> RoomV {
        RoomV { exits: self.exits@, description: self.description@, is_literal: self.is_literal }
    }
}

/// Defines an item. A treasure is marked with a leading `*` that, unlike
/// the word and room markers, stays part of the stored description. A
/// trailing `/NAME/` suffix names the item for automatic get and drop; the
/// suffix is stripped from the description when present.
#[derive(Debug)]
pub struct Item {
    /// The item description.
    pub description: Vec<u8>,
    /// The item location (possibly `INVENTORY`).
    pub location: i32,
    /// Is the item a treasure (denoted by an asterisk in the description)?
    pub is_treasure: bool,
    /// If set, automatic get and drop work, using this name.
    pub autograb: Option<Vec<u8>>,
}

/// The mathematical value of an `Item`.
pub ghost struct ItemV {
    pub description: Seq<u8>,
    pub location: i32,
    pub is_treasure: bool,
    pub autograb: Option<Seq<u8>>,
}

impl View for Item {
    type V = ItemV;

    open spec fn view(&self) -> ItemV {
        ItemV {
            description: self.description@,
            location: self.location,
            is_treasure: self.is_treasure,
            autograb: match self.autograb {
                Some(ref a) => Some(a@),
                None => None,
            },
        }
    }
}

/// Defines the footer.
#[derive(Clone, Copy, Debug, PartialEq, Eq, Structural)]
pub struct Footer {
    /// The version number.
    pub version: i32,
    /// The adventure number.
    pub adventure: i32,
    /// Magic number (purpose unknown), preserved verbatim.
    pub magic: i32,
}

/// Defines the game itself: the aggregate of everything read from one file.
#[derive(Debug)]
pub struct Game {
    pub header: Header,
    pub actions: Vec<Action>,
    pub verbs: Vec<Word>,
    pub nouns: Vec<Word>,
    pub rooms: Vec<Room>,
    pub messages: Vec<Vec<u8>>,
    pub items: Vec<Item>,
    pub footer: Footer,
}

/// The mathematical value of a `Game`.
pub ghost struct GameV {
    pub header: Header,
    pub actions: Seq<ActionV>,
    pub verbs: Seq<WordV>,
    pub nouns: Seq<WordV>,
    pub rooms: Seq<RoomV>,
    pub messages: Seq<Seq<u8>>,
    pub items: Seq<ItemV>,
    pub footer: Footer,
}

impl View for Game {
    type V = GameV;

    open spec fn view(&self) -> GameV {
        GameV {
            header: self.header,
            actions: self.actions@.map_values(|a: Action| a@),
            verbs: self.verbs@.map_values(|w: Word| w@),
            nouns: self.nouns@.map_values(|w: Word| w@),
            rooms: self.rooms@.map_values(|r: Room| r@),
            messages: self.messages@.map_values(|m: Vec<u8>| m@),
            items: self.items@.map_values(|i: Item| i@),
            footer: self.footer,
        }
    }
}

/// Condition packing law: for every type in `[0, 20)` and every parameter,
/// decoding the packed integer `type + 20 * parameter` yields that type
/// and parameter back, and encoding the result is the identity.
pub proof fn lemma_condition_packing(t: int, p: int)
    requires
        0 <= t < 20,
        i32::MIN <= t + 20 * p <= i32::MAX,
    ensures
        cond_type(spec_cond_of(t + 20 * p)) == t,
        cond_param(spec_cond_of(t + 20 * p)) == p,
        cond_code(spec_cond_of(t + 20 * p)) == t + 20 * p,
{
    lemma_fundamental_div_mod_converse(t + 20 * p, 20, p, t);
}

/// Action packing law: for all opcodes `a, b` in `[0, 150)`, unpacking the
/// stored integer `a * 150 + b` yields `(a, b)` back.
pub proof fn lemma_action_packing(a: int, b: int)
    requires
        0 <= a <= 149,
        0 <= b <= 149,
    ensures
        (a * 150 + b) / 150 == a,
        (a * 150 + b) % 150 == b,
{
    lemma_fundamental_div_mod_converse(a * 150 + b, 150, a, b);
}

impl Game {
    /// Parses a new game from the given stream of tokens.
    pub fn new(stream: &mut Stream) -> (r: Result<Game, parser::ParseError>)
        ensures
            match r {
                Ok(g) => parser::spec_parse_game(old(stream)@) == Ok::<
                    (GameV, Seq<TokenV>),
                    parser::ParseError,
                >((g@, final(stream)@)),
                Err(e) => parser::spec_parse_game(old(stream)@) == Err::<
                    (GameV, Seq<TokenV>),
                    parser::ParseError,
                >(e),
            },
    {
        parser::parse_game(stream)
    }
}

} // verus!
