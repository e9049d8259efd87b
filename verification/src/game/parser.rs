//! Initializes a `Game` structure from a stream of tokens.
//!
//! The functions here follow the file's fixed section order: header,
//! actions, interleaved verb/noun pairs, rooms, messages, items, comments,
//! footer. Each `parse_*` function is exact about the tokens it consumes:
//! its contract equates its behaviour with a specification-level parser
//! over the stream's token sequence, so that the writer can be proved to
//! be its byte-for-byte inverse.

use crate::game::{
    div_rem_euclid, spec_at_of, spec_cond_of, Action, ActionType, ActionV, Condition, Footer,
    Game, GameV, Header, Item, ItemV, Room, RoomV, Word, WordV,
};
use crate::tokenizer::{
    Location, Stream, TokenError, TokenErrorKind, TokenV, SLASH, STAR,
};
use vstd::prelude::*;

verus! {

/// The kinds of error the decoder reports.
#[derive(Clone, Copy, Debug, PartialEq, Eq, Structural)]
pub enum ParseErrorKind {
    /// A lexical or stream error: a missing or wrongly typed token.
    Stream(TokenError),
    /// A stored count at the 32-bit limit, whose true count (one more)
    /// cannot be represented.
    CountOverflow,
}

/// Represents an error encountered during parsing.
#[derive(Clone, Copy, Debug, PartialEq, Eq, Structural)]
pub struct ParseError {
    pub kind: ParseErrorKind,
}

/// The error that reports an exhausted token stream.
pub open spec fn end_of_stream_error() -> ParseError {
    ParseError {
        kind: ParseErrorKind::Stream(
            TokenError { loc: Location { line: 0, col: 0 }, kind: TokenErrorKind::UnexpectedEnd },
        ),
    }
}

/// Pulls one integer token: the value and the rest of the stream, or the
/// error that the pull reports.
pub open spec fn spec_next_int(ts: Seq<TokenV>) -> Result<(i32, Seq<TokenV>), ParseError> {
    if ts.len() == 0 {
        Err(end_of_stream_error())
    } else {
        match ts[0] {
            TokenV::Int(v, _) => Ok((v, ts.drop_first())),
            TokenV::Str(_, loc) => Err(
                ParseError {
                    kind: ParseErrorKind::Stream(
                        TokenError { loc, kind: TokenErrorKind::ExpectedInt },
                    ),
                },
            ),
        }
    }
}

/// Pulls one string token: the content and the rest of the stream, or the
/// error that the pull reports.
pub open spec fn spec_next_str(ts: Seq<TokenV>) -> Result<(Seq<u8>, Seq<TokenV>), ParseError> {
    if ts.len() == 0 {
        Err(end_of_stream_error())
    } else {
        match ts[0] {
            TokenV::Str(s, _) => Ok((s, ts.drop_first())),
            TokenV::Int(_, loc) => Err(
                ParseError {
                    kind: ParseErrorKind::Stream(
                        TokenError { loc, kind: TokenErrorKind::ExpectedStr },
                    ),
                },
            ),
        }
    }
}

/// Pulls `n` integer tokens in order.
pub open spec fn spec_next_ints(ts: Seq<TokenV>, n: nat) -> Result<
    (Seq<i32>, Seq<TokenV>),
    ParseError,
>
    decreases n,
{
    if n == 0 {
        Ok((Seq::empty(), ts))
    } else {
        match spec_next_int(ts) {
            Ok((v, r)) => match spec_next_ints(r, (n - 1) as nat) {
                Ok((vs, r2)) => Ok((seq![v] + vs, r2)),
                Err(e) => Err(e),
            },
            Err(e) => Err(e),
        }
    }
}

/// The number of entities a header count demands: the count itself, or
/// none when it is not positive.
pub open spec fn count_of(n: i32) -> nat {
    if n <= 0 {
        0
    } else {
        n as nat
    }
}

/// Decodes the header: twelve integers, with the five stored counts
/// adjusted up by one (the file stores each as the true count minus one).
/// A stored count at the 32-bit limit cannot be adjusted and is rejected.
pub open spec fn spec_parse_header(ts: Seq<TokenV>) -> Result<(Header, Seq<TokenV>), ParseError> {
    match spec_next_ints(ts, 12) {
        Ok((vs, rest)) => {
            if vs[1] == i32::MAX || vs[2] == i32::MAX || vs[3] == i32::MAX || vs[4] == i32::MAX
                || vs[10] == i32::MAX {
                Err(ParseError { kind: ParseErrorKind::CountOverflow })
            } else {
                Ok(
                    (
                        Header {
                            unknown0: vs[0],
                            num_items: (vs[1] + 1) as i32,
                            num_actions: (vs[2] + 1) as i32,
                            num_words: (vs[3] + 1) as i32,
                            num_rooms: (vs[4] + 1) as i32,
                            max_inventory: vs[5],
                            starting_room: vs[6],
                            num_treasures: vs[7],
                            word_length: vs[8],
                            light_duration: vs[9],
                            num_messages: (vs[10] + 1) as i32,
                            treasure_room: vs[11],
                        },
                        rest,
                    ),
                )
            }
        },
        Err(e) => Err(e),
    }
}

/// Decodes one condition from its packed integer.
pub open spec fn spec_parse_condition(ts: Seq<TokenV>) -> Result<
    (Condition, Seq<TokenV>),
    ParseError,
> {
    match spec_next_int(ts) {
        Ok((v, r)) => Ok((spec_cond_of(v as int), r)),
        Err(e) => Err(e),
    }
}

/// Decodes one action: the packed verb/noun integer, five packed
/// conditions, and two integers each packing two sub-actions. The comment
/// stays empty; a later block in the file supplies it.
pub open spec fn spec_parse_action(ts: Seq<TokenV>) -> Result<(ActionV, Seq<TokenV>), ParseError> {
    match spec_next_int(ts) {
        Ok((vn, r)) => match spec_next_ints(r, 5) {
            Ok((cs, r2)) => match spec_next_ints(r2, 2) {
                Ok((ats, r3)) => Ok(
                    (
                        ActionV {
                            verb_index: (vn as int / 150) as i32,
                            noun_index: (vn as int % 150) as i32,
                            conditions: cs.map_values(|c: i32| spec_cond_of(c as int)),
                            actions: seq![
                                spec_at_of(ats[0] as int / 150),
                                spec_at_of(ats[0] as int % 150),
                                spec_at_of(ats[1] as int / 150),
                                spec_at_of(ats[1] as int % 150),
                            ],
                            comment: None,
                        },
                        r3,
                    ),
                ),
                Err(e) => Err(e),
            },
            Err(e) => Err(e),
        },
        Err(e) => Err(e),
    }
}

/// Decodes `n` actions in order.
pub open spec fn spec_parse_actions(ts: Seq<TokenV>, n: nat) -> Result<
    (Seq<ActionV>, Seq<TokenV>),
    ParseError,
>
    decreases n,
{
    if n == 0 {
        Ok((Seq::empty(), ts))
    } else {
        match spec_parse_action(ts) {
            Ok((a, r)) => match spec_parse_actions(r, (n - 1) as nat) {
                Ok((rest, r2)) => Ok((seq![a] + rest, r2)),
                Err(e) => Err(e),
            },
            Err(e) => Err(e),
        }
    }
}

/// The word a stored string denotes: a leading `*` marks a synonym of the
/// previous word and is stripped.
pub open spec fn spec_word_of(s: Seq<u8>) -> WordV {
    if s.len() > 0 && s[0] == STAR {
        WordV { word: s.drop_first(), is_synonym: true }
    } else {
        WordV { word: s, is_synonym: false }
    }
}

/// Decodes `n` interleaved verb/noun pairs.
pub open spec fn spec_parse_words(ts: Seq<TokenV>, n: nat) -> Result<
    ((Seq<WordV>, Seq<WordV>), Seq<TokenV>),
    ParseError,
>
    decreases n,
{
    if n == 0 {
        Ok(((Seq::empty(), Seq::empty()), ts))
    } else {
        match spec_next_str(ts) {
            Ok((v, r)) => match spec_next_str(r) {
                Ok((w, r2)) => match spec_parse_words(r2, (n - 1) as nat) {
                    Ok(((verbs, nouns), r3)) => Ok(
                        (
                            (seq![spec_word_of(v)] + verbs, seq![spec_word_of(w)] + nouns),
                            r3,
                        ),
                    ),
                    Err(e) => Err(e),
                },
                Err(e) => Err(e),
            },
            Err(e) => Err(e),
        }
    }
}

/// Decodes one room: six exits, then a description whose leading `*`
/// (stripped) marks it as printed literally.
pub open spec fn spec_parse_room(ts: Seq<TokenV>) -> Result<(RoomV, Seq<TokenV>), ParseError> {
    match spec_next_ints(ts, 6) {
        Ok((es, r)) => match spec_next_str(r) {
            Ok((s, r2)) => {
                let w = spec_word_of(s);
                Ok((RoomV { exits: es, description: w.word, is_literal: w.is_synonym }, r2))
            },
            Err(e) => Err(e),
        },
        Err(e) => Err(e),
    }
}

/// Decodes `n` rooms in order.
pub open spec fn spec_parse_rooms(ts: Seq<TokenV>, n: nat) -> Result<
    (Seq<RoomV>, Seq<TokenV>),
    ParseError,
>
    decreases n,
{
    if n == 0 {
        Ok((Seq::empty(), ts))
    } else {
        match spec_parse_room(ts) {
            Ok((room, r)) => match spec_parse_rooms(r, (n - 1) as nat) {
                Ok((rest, r2)) => Ok((seq![room] + rest, r2)),
                Err(e) => Err(e),
            },
            Err(e) => Err(e),
        }
    }
}

/// Decodes `n` messages: plain strings.
pub open spec fn spec_parse_messages(ts: Seq<TokenV>, n: nat) -> Result<
    (Seq<Seq<u8>>, Seq<TokenV>),
    ParseError,
>
    decreases n,
{
    if n == 0 {
        Ok((Seq::empty(), ts))
    } else {
        match spec_next_str(ts) {
            Ok((s, r)) => match spec_parse_messages(r, (n - 1) as nat) {
                Ok((rest, r2)) => Ok((seq![s] + rest, r2)),
                Err(e) => Err(e),
            },
            Err(e) => Err(e),
        }
    }
}

/// The index of the last `/` in `s`, or -1 when `s` has none.
pub open spec fn last_slash(s: Seq<u8>) -> int
    decreases s.len(),
{
    if s.len() == 0 {
        -1
    } else if s.last() == SLASH {
        s.len() - 1
    } else {
        last_slash(s.drop_last())
    }
}

/// Whether a stored item description carries a trailing `/NAME/` suffix:
/// it ends with `/` and an earlier `/` opens the suffix.
pub open spec fn has_autograb(s: Seq<u8>) -> bool {
    s.len() >= 2 && s.last() == SLASH && last_slash(s.take(s.len() - 1)) >= 0
}

/// The item a stored description and location denote. A leading `*` marks
/// a treasure (the marker stays part of the description); a trailing
/// `/NAME/` suffix is stripped and its name kept for automatic get and
/// drop. The suffix opens at the last `/` before the final one.
pub open spec fn spec_item_of(s: Seq<u8>, loc: i32) -> ItemV {
    let treasure = s.len() > 0 && s[0] == STAR;
    if has_autograb(s) {
        let j = last_slash(s.take(s.len() - 1));
        ItemV {
            description: s.take(j),
            location: loc,
            is_treasure: treasure,
            autograb: Some(s.subrange(j + 1, s.len() - 1)),
        }
    } else {
        ItemV { description: s, location: loc, is_treasure: treasure, autograb: None }
    }
}

/// Decodes one item: a description, then its starting location.
pub open spec fn spec_parse_item(ts: Seq<TokenV>) -> Result<(ItemV, Seq<TokenV>), ParseError> {
    match spec_next_str(ts) {
        Ok((s, r)) => match spec_next_int(r) {
            Ok((loc, r2)) => Ok((spec_item_of(s, loc), r2)),
            Err(e) => Err(e),
        },
        Err(e) => Err(e),
    }
}

/// Decodes `n` items in order.
pub open spec fn spec_parse_items(ts: Seq<TokenV>, n: nat) -> Result<
    (Seq<ItemV>, Seq<TokenV>),
    ParseError,
>
    decreases n,
{
    if n == 0 {
        Ok((Seq::empty(), ts))
    } else {
        match spec_parse_item(ts) {
            Ok((item, r)) => match spec_parse_items(r, (n - 1) as nat) {
                Ok((rest, r2)) => Ok((seq![item] + rest, r2)),
                Err(e) => Err(e),
            },
            Err(e) => Err(e),
        }
    }
}

/// An action with its comment filled in: an empty stored comment becomes
/// "no comment", not an empty string.
pub open spec fn set_comment(a: ActionV, s: Seq<u8>) -> ActionV {
    ActionV {
        comment: if s.len() == 0 {
            None
        } else {
            Some(s)
        },
        ..a
    }
}

/// Decodes the comment block: one string per action, associated back to
/// the actions by position.
pub open spec fn spec_parse_comments(ts: Seq<TokenV>, avs: Seq<ActionV>) -> Result<
    (Seq<ActionV>, Seq<TokenV>),
    ParseError,
>
    decreases avs.len(),
{
    if avs.len() == 0 {
        Ok((avs, ts))
    } else {
        match spec_next_str(ts) {
            Ok((s, r)) => match spec_parse_comments(r, avs.drop_first()) {
                Ok((rest, r2)) => Ok((seq![set_comment(avs[0], s)] + rest, r2)),
                Err(e) => Err(e),
            },
            Err(e) => Err(e),
        }
    }
}

/// Decodes the footer: three integers, preserved verbatim.
pub open spec fn spec_parse_footer(ts: Seq<TokenV>) -> Result<(Footer, Seq<TokenV>), ParseError> {
    match spec_next_ints(ts, 3) {
        Ok((vs, rest)) => Ok((Footer { version: vs[0], adventure: vs[1], magic: vs[2] }, rest)),
        Err(e) => Err(e),
    }
}

/// Decodes a whole game from a token sequence: the sections in fixed file
/// order, each sized by a count already decoded from the header. The
/// result pairs the game with the tokens left over.
pub open spec fn spec_parse_game(ts: Seq<TokenV>) -> Result<(GameV, Seq<TokenV>), ParseError> {
    match spec_parse_header(ts) {
        Ok((header, r1)) => match spec_parse_actions(r1, count_of(header.num_actions)) {
            Ok((actions, r2)) => match spec_parse_words(r2, count_of(header.num_words)) {
                Ok(((verbs, nouns), r3)) => match spec_parse_rooms(
                    r3,
                    count_of(header.num_rooms),
                ) {
                    Ok((rooms, r4)) => match spec_parse_messages(
                        r4,
                        count_of(header.num_messages),
                    ) {
                        Ok((messages, r5)) => match spec_parse_items(
                            r5,
                            count_of(header.num_items),
                        ) {
                            Ok((items, r6)) => match spec_parse_comments(r6, actions) {
                                Ok((actions2, r7)) => match spec_parse_footer(r7) {
                                    Ok((footer, r8)) => Ok(
                                        (
                                            GameV {
                                                header,
                                                actions: actions2,
                                                verbs,
                                                nouns,
                                                rooms,
                                                messages,
                                                items,
                                                footer,
                                            },
                                            r8,
                                        ),
                                    ),
                                    Err(e) => Err(e),
                                },
                                Err(e) => Err(e),
                            },
                            Err(e) => Err(e),
                        },
                        Err(e) => Err(e),
                    },
                    Err(e) => Err(e),
                },
                Err(e) => Err(e),
            },
            Err(e) => Err(e),
        },
        Err(e) => Err(e),
    }
}

/// Reads the next integer token, wrapping any stream error.
fn _read_int(stream: &mut Stream) -> (r: Result<i32, ParseError>)
    ensures
        match r {
            Ok(v) => spec_next_int(old(stream)@) == Ok::<(i32, Seq<TokenV>), ParseError>(
                (v, final(stream)@),
            ),
            Err(e) => spec_next_int(old(stream)@) == Err::<(i32, Seq<TokenV>), ParseError>(e),
        },
{
    match stream.next_int() {
        Ok(value) => Ok(value),
        Err(e) => Err(ParseError { kind: ParseErrorKind::Stream(e) }),
    }
}

/// Reads the next string token, wrapping any stream error.
fn _read_str(stream: &mut Stream) -> (r: Result<Vec<u8>, ParseError>)
    ensures
        match r {
            Ok(v) => spec_next_str(old(stream)@) == Ok::<(Seq<u8>, Seq<TokenV>), ParseError>(
                (v@, final(stream)@),
            ),
            Err(e) => spec_next_str(old(stream)@) == Err::<(Seq<u8>, Seq<TokenV>), ParseError>(e),
        },
{
    match stream.next_str() {
        Ok(value) => Ok(value),
        Err(e) => Err(ParseError { kind: ParseErrorKind::Stream(e) }),
    }
}

/// Reads the next word: a string token whose optional leading `*` marks
/// special handling and is stripped.
fn _read_word(stream: &mut Stream) -> (r: Result<(Vec<u8>, bool), ParseError>)
    ensures
        match r {
            Ok(w) => spec_next_str(old(stream)@) matches Ok((s, rest)) && rest == final(stream)@
                && spec_word_of(s) == (WordV { word: w.0@, is_synonym: w.1 }),
            Err(e) => spec_next_str(old(stream)@) == Err::<(Seq<u8>, Seq<TokenV>), ParseError>(e),
        },
{
    let mut word = match _read_str(stream) {
        Ok(s) => s,
        Err(e) => {
            return Err(e);
        },
    };
    let has_prefix = word.len() > 0 && word[0] == STAR;
    if has_prefix {
        let ghost pre = word@;
        word.remove(0);
        proof {
            assert(word@ =~= pre.drop_first());
        }
    }
    Ok((word, has_prefix))
}

/// Reads `n` consecutive integer tokens.
fn read_ints(stream: &mut Stream, n: usize) -> (r: Result<Vec<i32>, ParseError>)
    ensures
        match r {
            Ok(v) => spec_next_ints(old(stream)@, n as nat) == Ok::<
                (Seq<i32>, Seq<TokenV>),
                ParseError,
            >((v@, final(stream)@)) && v@.len() == n,
            Err(e) => spec_next_ints(old(stream)@, n as nat) == Err::<
                (Seq<i32>, Seq<TokenV>),
                ParseError,
            >(e),
        },
{
    let ghost ts0 = stream@;
    let mut acc: Vec<i32> = Vec::new();
    let mut k: usize = 0;
    while k < n
        invariant
            k <= n,
            acc@.len() == k,
            spec_next_ints(ts0, n as nat) == (match spec_next_ints(stream@, (n - k) as nat) {
                Ok((vs, r)) => Ok::<(Seq<i32>, Seq<TokenV>), ParseError>((acc@ + vs, r)),
                Err(e) => Err::<(Seq<i32>, Seq<TokenV>), ParseError>(e),
            }),
        decreases n - k,
    {
        let ghost tsk = stream@;
        let ghost acck = acc@;
        match _read_int(stream) {
            Ok(v) => {
                acc.push(v);
                proof {
                    if let Ok((vs, r)) = spec_next_ints(stream@, (n - k - 1) as nat) {
                        assert(acck + (seq![v] + vs) =~= acc@ + vs);
                    }
                }
            },
            Err(e) => {
                return Err(e);
            },
        }
        k += 1;
    }
    proof {
        if let Ok((vs, r)) = spec_next_ints(stream@, 0) {
            assert(acc@ + vs =~= acc@);
        }
    }
    Ok(acc)
}

/// Parses the header of the game file.
fn parse_header(stream: &mut Stream) -> (r: Result<Header, ParseError>)
    ensures
        match r {
            Ok(h) => spec_parse_header(old(stream)@) == Ok::<(Header, Seq<TokenV>), ParseError>(
                (h, final(stream)@),
            ),
            Err(e) => spec_parse_header(old(stream)@) == Err::<(Header, Seq<TokenV>), ParseError>(
                e,
            ),
        },
{
    let vs = match read_ints(stream, 12) {
        Ok(vs) => vs,
        Err(e) => {
            return Err(e);
        },
    };
    if vs[1] == i32::MAX || vs[2] == i32::MAX || vs[3] == i32::MAX || vs[4] == i32::MAX || vs[10]
        == i32::MAX {
        return Err(ParseError { kind: ParseErrorKind::CountOverflow });
    }
    Ok(
        Header {
            unknown0: vs[0],
            num_items: vs[1] + 1,  // adjust for option base 0
            num_actions: vs[2] + 1,  // adjust for option base 0
            num_words: vs[3] + 1,  // adjust for option base 0
            num_rooms: vs[4] + 1,  // adjust for option base 0
            max_inventory: vs[5],
            starting_room: vs[6],
            num_treasures: vs[7],
            word_length: vs[8],
            light_duration: vs[9],
            num_messages: vs[10] + 1,  // adjust for option base 0
            treasure_room: vs[11],
        },
    )
}

/// Parses a single condition, expressed as `type + 20 * parameter`.
fn parse_condition(stream: &mut Stream) -> (r: Result<Condition, ParseError>)
    ensures
        match r {
            Ok(c) => spec_parse_condition(old(stream)@) == Ok::<
                (Condition, Seq<TokenV>),
                ParseError,
            >((c, final(stream)@)),
            Err(e) => spec_parse_condition(old(stream)@) == Err::<
                (Condition, Seq<TokenV>),
                ParseError,
            >(e),
        },
{
    let num = match _read_int(stream) {
        Ok(v) => v,
        Err(e) => {
            return Err(e);
        },
    };
    Ok(Condition::from_i32(num))
}

/// Parses a single action. Each action has the following form:
/// *   (150 * verb index) + noun index
/// *   5 conditions, expressed as condition type + (20 * parameter)
/// *   (150 * sub-action 0) + sub-action 1
/// *   (150 * sub-action 2) + sub-action 3
fn parse_action(stream: &mut Stream) -> (r: Result<Action, ParseError>)
    ensures
        match r {
            Ok(a) => spec_parse_action(old(stream)@) == Ok::<(ActionV, Seq<TokenV>), ParseError>(
                (a@, final(stream)@),
            ),
            Err(e) => spec_parse_action(old(stream)@) == Err::<(ActionV, Seq<TokenV>), ParseError>(
                e,
            ),
        },
{
    proof {
        reveal_with_fuel(spec_next_ints, 7);
    }
    let num = match _read_int(stream) {
        Ok(v) => v,
        Err(e) => {
            return Err(e);
        },
    };
    let (verb_index, noun) = div_rem_euclid(num, 150);

    let c0 = match _read_int(stream) {
        Ok(v) => v,
        Err(e) => {
            return Err(e);
        },
    };
    let c1 = match _read_int(stream) {
        Ok(v) => v,
        Err(e) => {
            return Err(e);
        },
    };
    let c2 = match _read_int(stream) {
        Ok(v) => v,
        Err(e) => {
            return Err(e);
        },
    };
    let c3 = match _read_int(stream) {
        Ok(v) => v,
        Err(e) => {
            return Err(e);
        },
    };
    let c4 = match _read_int(stream) {
        Ok(v) => v,
        Err(e) => {
            return Err(e);
        },
    };
    let conditions = [
        Condition::from_i32(c0),
        Condition::from_i32(c1),
        Condition::from_i32(c2),
        Condition::from_i32(c3),
        Condition::from_i32(c4),
    ];

    let a0 = match _read_int(stream) {
        Ok(v) => v,
        Err(e) => {
            return Err(e);
        },
    };
    let a1 = match _read_int(stream) {
        Ok(v) => v,
        Err(e) => {
            return Err(e);
        },
    };
    let (f0, s0) = div_rem_euclid(a0, 150);
    let (f1, s1) = div_rem_euclid(a1, 150);
    let actions = [
        ActionType::from_i32(f0),
        ActionType::from_i32(s0 as i32),
        ActionType::from_i32(f1),
        ActionType::from_i32(s1 as i32),
    ];

    let a = Action {
        verb_index,
        noun_index: noun as i32,
        conditions,
        actions,
        comment: None,  // comments come after items in the game file
    };
    proof {
        if let Ok((av, rest)) = spec_parse_action(old(stream)@) {
            assert(a@.conditions =~= av.conditions);
            assert(a@.actions =~= av.actions);
        }
    }
    Ok(a)
}

/// Parses all of the actions from the game file.
fn parse_actions(stream: &mut Stream, num_actions: i32) -> (r: Result<Vec<Action>, ParseError>)
    ensures
        match r {
            Ok(v) => spec_parse_actions(old(stream)@, count_of(num_actions)) == Ok::<
                (Seq<ActionV>, Seq<TokenV>),
                ParseError,
            >((v@.map_values(|a: Action| a@), final(stream)@)),
            Err(e) => spec_parse_actions(old(stream)@, count_of(num_actions)) == Err::<
                (Seq<ActionV>, Seq<TokenV>),
                ParseError,
            >(e),
        },
{
    let ghost ts0 = stream@;
    let n: usize = if num_actions <= 0 {
        0
    } else {
        num_actions as usize
    };
    let mut acc: Vec<Action> = Vec::new();
    let mut k: usize = 0;
    while k < n
        invariant
            k <= n,
            acc@.len() == k,
            spec_parse_actions(ts0, count_of(num_actions)) == (match spec_parse_actions(
                stream@,
                (n - k) as nat,
            ) {
                Ok((rest, r)) => Ok::<(Seq<ActionV>, Seq<TokenV>), ParseError>(
                    (acc@.map_values(|a: Action| a@) + rest, r),
                ),
                Err(e) => Err::<(Seq<ActionV>, Seq<TokenV>), ParseError>(e),
            }),
        decreases n - k,
    {
        let ghost acck = acc@;
        match parse_action(stream) {
            Ok(a) => {
                acc.push(a);
                proof {
                    assert(acc@.map_values(|a: Action| a@) =~= acck.map_values(|a: Action| a@)
                        .push(a@));
                    if let Ok((rest, r)) = spec_parse_actions(stream@, (n - k - 1) as nat) {
                        assert(acck.map_values(|a: Action| a@) + (seq![a@] + rest) =~= acc@
                            .map_values(|a: Action| a@) + rest);
                    }
                }
            },
            Err(e) => {
                return Err(e);
            },
        }
        k += 1;
    }
    proof {
        if let Ok((rest, r)) = spec_parse_actions(stream@, 0) {
            assert(acc@.map_values(|a: Action| a@) + rest =~= acc@.map_values(|a: Action| a@));
        }
    }
    Ok(acc)
}

/// Parses all of the words from the game file: `num_words` interleaved
/// verb/noun pairs. An initial `*` marks a synonym.
fn parse_words(stream: &mut Stream, num_words: i32) -> (r: Result<
    (Vec<Word>, Vec<Word>),
    ParseError,
>)
    ensures
        match r {
            Ok(vw) => spec_parse_words(old(stream)@, count_of(num_words)) == Ok::<
                ((Seq<WordV>, Seq<WordV>), Seq<TokenV>),
                ParseError,
            >(
                (
                    (vw.0@.map_values(|w: Word| w@), vw.1@.map_values(|w: Word| w@)),
                    final(stream)@,
                ),
            ),
            Err(e) => spec_parse_words(old(stream)@, count_of(num_words)) == Err::<
                ((Seq<WordV>, Seq<WordV>), Seq<TokenV>),
                ParseError,
            >(e),
        },
{
    let ghost ts0 = stream@;
    let n: usize = if num_words <= 0 {
        0
    } else {
        num_words as usize
    };
    let mut verbs: Vec<Word> = Vec::new();
    let mut nouns: Vec<Word> = Vec::new();
    let mut k: usize = 0;
    while k < n
        invariant
            k <= n,
            spec_parse_words(ts0, count_of(num_words)) == (match spec_parse_words(
                stream@,
                (n - k) as nat,
            ) {
                Ok(((vs, ns), r)) => Ok::<((Seq<WordV>, Seq<WordV>), Seq<TokenV>), ParseError>(
                    (
                        (
                            verbs@.map_values(|w: Word| w@) + vs,
                            nouns@.map_values(|w: Word| w@) + ns,
                        ),
                        r,
                    ),
                ),
                Err(e) => Err::<((Seq<WordV>, Seq<WordV>), Seq<TokenV>), ParseError>(e),
            }),
        decreases n - k,
    {
        let ghost verbsk = verbs@;
        let ghost nounsk = nouns@;
        let verb = match _read_word(stream) {
            Ok(w) => w,
            Err(e) => {
                return Err(e);
            },
        };
        let noun = match _read_word(stream) {
            Ok(w) => w,
            Err(e) => {
                return Err(e);
            },
        };
        verbs.push(Word { word: verb.0, is_synonym: verb.1 });
        nouns.push(Word { word: noun.0, is_synonym: noun.1 });
        proof {
            let f = |w: Word| w@;
            assert(verbs@.map_values(f) =~= verbsk.map_values(f).push(verbs@.last()@));
            assert(nouns@.map_values(f) =~= nounsk.map_values(f).push(nouns@.last()@));
            if let Ok(((vs, ns), r)) = spec_parse_words(stream@, (n - k - 1) as nat) {
                assert(verbsk.map_values(f) + (seq![verbs@.last()@] + vs) =~= verbs@.map_values(f)
                    + vs);
                assert(nounsk.map_values(f) + (seq![nouns@.last()@] + ns) =~= nouns@.map_values(f)
                    + ns);
            }
        }
        k += 1;
    }
    proof {
        if let Ok(((vs, ns), r)) = spec_parse_words(stream@, 0) {
            assert(verbs@.map_values(|w: Word| w@) + vs =~= verbs@.map_values(|w: Word| w@));
            assert(nouns@.map_values(|w: Word| w@) + ns =~= nouns@.map_values(|w: Word| w@));
        }
    }
    Ok((verbs, nouns))
}

/// Parses a single room: six exits (north, south, east, west, up, down)
/// followed by a description. The description starts with `*` to indicate
/// that it stands alone, with no "I'm in a" prefix.
fn parse_room(stream: &mut Stream) -> (r: Result<Room, ParseError>)
    ensures
        match r {
            Ok(room) => spec_parse_room(old(stream)@) == Ok::<(RoomV, Seq<TokenV>), ParseError>(
                (room@, final(stream)@),
            ),
            Err(e) => spec_parse_room(old(stream)@) == Err::<(RoomV, Seq<TokenV>), ParseError>(e),
        },
{
    let vs = match read_ints(stream, 6) {
        Ok(vs) => vs,
        Err(e) => {
            return Err(e);
        },
    };
    let exits = [vs[0], vs[1], vs[2], vs[3], vs[4], vs[5]];
    let desc = match _read_word(stream) {
        Ok(w) => w,
        Err(e) => {
            return Err(e);
        },
    };
    let room = Room { exits, description: desc.0, is_literal: desc.1 };
    proof {
        assert(room@.exits =~= vs@);
    }
    Ok(room)
}

/// Parses all of the rooms from the game file.
fn parse_rooms(stream: &mut Stream, num_rooms: i32) -> (r: Result<Vec<Room>, ParseError>)
    ensures
        match r {
            Ok(v) => spec_parse_rooms(old(stream)@, count_of(num_rooms)) == Ok::<
                (Seq<RoomV>, Seq<TokenV>),
                ParseError,
            >((v@.map_values(|room: Room| room@), final(stream)@)),
            Err(e) => spec_parse_rooms(old(stream)@, count_of(num_rooms)) == Err::<
                (Seq<RoomV>, Seq<TokenV>),
                ParseError,
            >(e),
        },
{
    let ghost ts0 = stream@;
    let n: usize = if num_rooms <= 0 {
        0
    } else {
        num_rooms as usize
    };
    let mut acc: Vec<Room> = Vec::new();
    let mut k: usize = 0;
    while k < n
        invariant
            k <= n,
            spec_parse_rooms(ts0, count_of(num_rooms)) == (match spec_parse_rooms(
                stream@,
                (n - k) as nat,
            ) {
                Ok((rest, r)) => Ok::<(Seq<RoomV>, Seq<TokenV>), ParseError>(
                    (acc@.map_values(|room: Room| room@) + rest, r),
                ),
                Err(e) => Err::<(Seq<RoomV>, Seq<TokenV>), ParseError>(e),
            }),
        decreases n - k,
    {
        let ghost acck = acc@;
        match parse_room(stream) {
            Ok(room) => {
                acc.push(room);
                proof {
                    let f = |room: Room| room@;
                    assert(acc@.map_values(f) =~= acck.map_values(f).push(acc@.last()@));
                    if let Ok((rest, r)) = spec_parse_rooms(stream@, (n - k - 1) as nat) {
                        assert(acck.map_values(f) + (seq![acc@.last()@] + rest) =~= acc@.map_values(
                            f,
                        ) + rest);
                    }
                }
            },
            Err(e) => {
                return Err(e);
            },
        }
        k += 1;
    }
    proof {
        if let Ok((rest, r)) = spec_parse_rooms(stream@, 0) {
            assert(acc@.map_values(|room: Room| room@) + rest =~= acc@.map_values(
                |room: Room| room@,
            ));
        }
    }
    Ok(acc)
}

/// Parses all of the messages from the game file: plain strings.
fn parse_messages(stream: &mut Stream, num_messages: i32) -> (r: Result<Vec<Vec<u8>>, ParseError>)
    ensures
        match r {
            Ok(v) => spec_parse_messages(old(stream)@, count_of(num_messages)) == Ok::<
                (Seq<Seq<u8>>, Seq<TokenV>),
                ParseError,
            >((v@.map_values(|m: Vec<u8>| m@), final(stream)@)),
            Err(e) => spec_parse_messages(old(stream)@, count_of(num_messages)) == Err::<
                (Seq<Seq<u8>>, Seq<TokenV>),
                ParseError,
            >(e),
        },
{
    let ghost ts0 = stream@;
    let n: usize = if num_messages <= 0 {
        0
    } else {
        num_messages as usize
    };
    let mut acc: Vec<Vec<u8>> = Vec::new();
    let mut k: usize = 0;
    while k < n
        invariant
            k <= n,
            spec_parse_messages(ts0, count_of(num_messages)) == (match spec_parse_messages(
                stream@,
                (n - k) as nat,
            ) {
                Ok((rest, r)) => Ok::<(Seq<Seq<u8>>, Seq<TokenV>), ParseError>(
                    (acc@.map_values(|m: Vec<u8>| m@) + rest, r),
                ),
                Err(e) => Err::<(Seq<Seq<u8>>, Seq<TokenV>), ParseError>(e),
            }),
        decreases n - k,
    {
        let ghost acck = acc@;
        match _read_str(stream) {
            Ok(m) => {
                acc.push(m);
                proof {
                    let f = |m: Vec<u8>| m@;
                    assert(acc@.map_values(f) =~= acck.map_values(f).push(acc@.last()@));
                    if let Ok((rest, r)) = spec_parse_messages(stream@, (n - k - 1) as nat) {
                        assert(acck.map_values(f) + (seq![acc@.last()@] + rest) =~= acc@.map_values(
                            f,
                        ) + rest);
                    }
                }
            },
            Err(e) => {
                return Err(e);
            },
        }
        k += 1;
    }
    proof {
        if let Ok((rest, r)) = spec_parse_messages(stream@, 0) {
            assert(acc@.map_values(|m: Vec<u8>| m@) + rest =~= acc@.map_values(|m: Vec<u8>| m@));
        }
    }
    Ok(acc)
}

/// Copies the byte range `[start, end)` out of a vector.
fn sub_bytes(v: &Vec<u8>, start: usize, end: usize) -> (out: Vec<u8>)
    requires
        start <= end <= v@.len(),
    ensures
        out@ == v@.subrange(start as int, end as int),
{
    let mut out: Vec<u8> = Vec::new();
    let mut i: usize = start;
    while i < end
        invariant
            start <= i <= end,
            out@ =~= v@.subrange(start as int, i as int),
        decreases end - i,
    {
        out.push(v[i]);
        proof {
            assert(out@ =~= v@.subrange(start as int, i + 1));
        }
        i += 1;
    }
    proof {
        assert(out@ =~= v@.subrange(start as int, end as int));
    }
    out
}

/// Finds the last `/` strictly before index `end`, scanning backwards.
fn find_last_slash(v: &Vec<u8>, end: usize) -> (r: Option<usize>)
    requires
        end <= v@.len(),
    ensures
        match r {
            Some(j) => j < end && j == last_slash(v@.take(end as int)),
            None => last_slash(v@.take(end as int)) == -1,
        },
{
    let mut idx: usize = end;
    while idx > 0
        invariant
            idx <= end,
            last_slash(v@.take(end as int)) == last_slash(v@.take(idx as int)),
        decreases idx,
    {
        proof {
            assert(v@.take(idx as int).drop_last() =~= v@.take(idx - 1));
            assert(v@.take(idx as int).last() == v@[idx - 1]);
        }
        if v[idx - 1] == SLASH {
            return Some(idx - 1);
        }
        idx -= 1;
    }
    None
}

/// Parses a single item: a string description followed by a room number
/// for the initial location.
///
/// Treasures are marked with a leading `*`; unlike words and room
/// descriptions, that prefix stays part of the description.
///
/// A description with a trailing `/NAME/` suffix enables automatic GET and
/// DROP using NAME as the noun; the suffix is stripped.
fn parse_item(stream: &mut Stream) -> (r: Result<Item, ParseError>)
    ensures
        match r {
            Ok(item) => spec_parse_item(old(stream)@) == Ok::<(ItemV, Seq<TokenV>), ParseError>(
                (item@, final(stream)@),
            ),
            Err(e) => spec_parse_item(old(stream)@) == Err::<(ItemV, Seq<TokenV>), ParseError>(e),
        },
{
    let mut description = match _read_str(stream) {
        Ok(s) => s,
        Err(e) => {
            return Err(e);
        },
    };
    let location = match _read_int(stream) {
        Ok(v) => v,
        Err(e) => {
            return Err(e);
        },
    };

    let is_treasure = description.len() > 0 && description[0] == STAR;

    let ghost s = description@;
    let mut autograb: Option<Vec<u8>> = None;
    if description.len() >= 2 && description[description.len() - 1] == SLASH {
        match find_last_slash(&description, description.len() - 1) {
            Some(j) => {
                let grab = sub_bytes(&description, j + 1, description.len() - 1);
                description.truncate(j);
                proof {
                    assert(description@ =~= s.take(j as int));
                }
                autograb = Some(grab);
            },
            None => {},
        }
    }
    let item = Item { description, location, is_treasure, autograb };
    Ok(item)
}

/// Parses all of the items from the game file.
fn parse_items(stream: &mut Stream, num_items: i32) -> (r: Result<Vec<Item>, ParseError>)
    ensures
        match r {
            Ok(v) => spec_parse_items(old(stream)@, count_of(num_items)) == Ok::<
                (Seq<ItemV>, Seq<TokenV>),
                ParseError,
            >((v@.map_values(|item: Item| item@), final(stream)@)),
            Err(e) => spec_parse_items(old(stream)@, count_of(num_items)) == Err::<
                (Seq<ItemV>, Seq<TokenV>),
                ParseError,
            >(e),
        },
{
    let ghost ts0 = stream@;
    let n: usize = if num_items <= 0 {
        0
    } else {
        num_items as usize
    };
    let mut acc: Vec<Item> = Vec::new();
    let mut k: usize = 0;
    while k < n
        invariant
            k <= n,
            spec_parse_items(ts0, count_of(num_items)) == (match spec_parse_items(
                stream@,
                (n - k) as nat,
            ) {
                Ok((rest, r)) => Ok::<(Seq<ItemV>, Seq<TokenV>), ParseError>(
                    (acc@.map_values(|item: Item| item@) + rest, r),
                ),
                Err(e) => Err::<(Seq<ItemV>, Seq<TokenV>), ParseError>(e),
            }),
        decreases n - k,
    {
        let ghost acck = acc@;
        match parse_item(stream) {
            Ok(item) => {
                acc.push(item);
                proof {
                    let f = |item: Item| item@;
                    assert(acc@.map_values(f) =~= acck.map_values(f).push(acc@.last()@));
                    if let Ok((rest, r)) = spec_parse_items(stream@, (n - k - 1) as nat) {
                        assert(acck.map_values(f) + (seq![acc@.last()@] + rest) =~= acc@.map_values(
                            f,
                        ) + rest);
                    }
                }
            },
            Err(e) => {
                return Err(e);
            },
        }
        k += 1;
    }
    proof {
        if let Ok((rest, r)) = spec_parse_items(stream@, 0) {
            assert(acc@.map_values(|item: Item| item@) + rest =~= acc@.map_values(
                |item: Item| item@,
            ));
        }
    }
    Ok(acc)
}

/// Parses the comment block: one string per action, in action order. A
/// non-empty string becomes that action's comment.
fn parse_comments(stream: &mut Stream, actions: Vec<Action>) -> (r: Result<Vec<Action>, ParseError>)
    ensures
        match r {
            Ok(v) => spec_parse_comments(old(stream)@, actions@.map_values(|a: Action| a@)) == Ok::<
                (Seq<ActionV>, Seq<TokenV>),
                ParseError,
            >((v@.map_values(|a: Action| a@), final(stream)@)),
            Err(e) => spec_parse_comments(old(stream)@, actions@.map_values(|a: Action| a@))
                == Err::<(Seq<ActionV>, Seq<TokenV>), ParseError>(e),
        },
{
    let ghost ts0 = stream@;
    let ghost avs0 = actions@.map_values(|a: Action| a@);
    let mut rest = actions;
    let mut acc: Vec<Action> = Vec::new();
    while rest.len() > 0
        invariant
            spec_parse_comments(ts0, avs0) == (match spec_parse_comments(
                stream@,
                rest@.map_values(|a: Action| a@),
            ) {
                Ok((out, r)) => Ok::<(Seq<ActionV>, Seq<TokenV>), ParseError>(
                    (acc@.map_values(|a: Action| a@) + out, r),
                ),
                Err(e) => Err::<(Seq<ActionV>, Seq<TokenV>), ParseError>(e),
            }),
        decreases rest@.len(),
    {
        let ghost restk = rest@;
        let ghost acck = acc@;
        let a = rest.remove(0);
        proof {
            let f = |a: Action| a@;
            assert(rest@.map_values(f) =~= restk.map_values(f).drop_first());
        }
        let comment = match _read_str(stream) {
            Ok(c) => c,
            Err(e) => {
                return Err(e);
            },
        };
        let filled = Action {
            verb_index: a.verb_index,
            noun_index: a.noun_index,
            conditions: a.conditions,
            actions: a.actions,
            comment: if comment.len() == 0 {
                None
            } else {
                Some(comment)
            },
        };
        acc.push(filled);
        proof {
            let f = |a: Action| a@;
            assert(filled@ == set_comment(restk.map_values(f)[0], comment@));
            assert(acc@.map_values(f) =~= acck.map_values(f).push(filled@));
            if let Ok((out, r)) = spec_parse_comments(stream@, rest@.map_values(f)) {
                assert(acck.map_values(f) + (seq![filled@] + out) =~= acc@.map_values(f) + out);
            }
        }
    }
    proof {
        assert(rest@.map_values(|a: Action| a@) =~= Seq::<ActionV>::empty());
        if let Ok((out, r)) = spec_parse_comments(stream@, rest@.map_values(|a: Action| a@)) {
            assert(acc@.map_values(|a: Action| a@) + out =~= acc@.map_values(|a: Action| a@));
        }
    }
    Ok(acc)
}

/// Parses the footer.
fn parse_footer(stream: &mut Stream) -> (r: Result<Footer, ParseError>)
    ensures
        match r {
            Ok(f) => spec_parse_footer(old(stream)@) == Ok::<(Footer, Seq<TokenV>), ParseError>(
                (f, final(stream)@),
            ),
            Err(e) => spec_parse_footer(old(stream)@) == Err::<(Footer, Seq<TokenV>), ParseError>(
                e,
            ),
        },
{
    let vs = match read_ints(stream, 3) {
        Ok(vs) => vs,
        Err(e) => {
            return Err(e);
        },
    };
    Ok(Footer { version: vs[0], adventure: vs[1], magic: vs[2] })
}

/// Initializes a new `Game` structure from a stream of tokens: the exact
/// executable counterpart of `spec_parse_game`, consuming precisely the
/// tokens that encode the game and leaving the rest.
pub fn parse_game(stream: &mut Stream) -> (r: Result<Game, ParseError>)
    ensures
        match r {
            Ok(g) => spec_parse_game(old(stream)@) == Ok::<(GameV, Seq<TokenV>), ParseError>(
                (g@, final(stream)@),
            ),
            Err(e) => spec_parse_game(old(stream)@) == Err::<(GameV, Seq<TokenV>), ParseError>(e),
        },
{
    let header = match parse_header(stream) {
        Ok(h) => h,
        Err(e) => {
            return Err(e);
        },
    };
    let actions = match parse_actions(stream, header.num_actions) {
        Ok(a) => a,
        Err(e) => {
            return Err(e);
        },
    };
    let words = match parse_words(stream, header.num_words) {
        Ok(w) => w,
        Err(e) => {
            return Err(e);
        },
    };
    let rooms = match parse_rooms(stream, header.num_rooms) {
        Ok(room) => room,
        Err(e) => {
            return Err(e);
        },
    };
    let messages = match parse_messages(stream, header.num_messages) {
        Ok(m) => m,
        Err(e) => {
            return Err(e);
        },
    };
    let items = match parse_items(stream, header.num_items) {
        Ok(i) => i,
        Err(e) => {
            return Err(e);
        },
    };
    let actions = match parse_comments(stream, actions) {
        Ok(a) => a,
        Err(e) => {
            return Err(e);
        },
    };
    let footer = match parse_footer(stream) {
        Ok(f) => f,
        Err(e) => {
            return Err(e);
        },
    };

    Ok(
        Game {
            header,
            actions,
            verbs: words.0,
            nouns: words.1,
            rooms,
            messages,
            items,
            footer,
        },
    )
}

} // verus!
