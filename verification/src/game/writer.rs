//! Writes a `Game` structure back out in the same format it was read from.
//!
//! The encoder is the structural inverse of the decoder: it applies the
//! exact inverse arithmetic for every packed field and reproduces the byte
//! layout the decoder consumed — one ` N \n` cell per integer and one
//! quoted line per string. `lemma_round_trip` states that law: re-encoding
//! a fully decoded game reproduces the original bytes exactly.

use crate::game::parser::{
    count_of, has_autograb, last_slash, set_comment, spec_item_of, spec_next_int, spec_next_ints,
    spec_next_str, spec_parse_action, spec_parse_actions, spec_parse_comments, spec_parse_footer,
    spec_parse_game, spec_parse_header, spec_parse_item, spec_parse_items, spec_parse_messages,
    spec_parse_room, spec_parse_rooms, spec_parse_words, spec_word_of, ParseError,
};
use crate::game::{
    at_code, at_wf, cond_code, cond_encodable, cond_param, cond_type, spec_at_of, spec_cond_of,
    Action, ActionType, ActionV, Condition, Footer, Game, GameV, Header, Item, ItemV, Room, RoomV,
    Word, WordV,
};
use vstd::arithmetic::div_mod::{
    lemma_fundamental_div_mod, lemma_fundamental_div_mod_converse, lemma_mod_bound,
};
use crate::tokenizer::{
    datas, digits_val, int_val, is_digit_byte, lemma_lex_run_concat, lemma_spec_lex_is_run, lex_init,
    lex_run, lex_step, spec_tokenize, tok_data, LexState, State, TokenData, TokenError, TokenV,
    BACKSLASH, DIGIT0, LF, MINUS, QUOTE, SLASH, SPACE, STAR,
};
use vstd::prelude::*;

verus! {

/// The decimal digits of `n`, most significant first.
pub open spec fn dec_digits(n: nat) -> Seq<u8>
    decreases n,
{
    if n < 10 {
        seq![(DIGIT0 + n) as u8]
    } else {
        dec_digits(n / 10).push((DIGIT0 + n % 10) as u8)
    }
}

/// The decimal rendering of `v`: its digits, with a leading `-` when
/// negative.
pub open spec fn dec_bytes(v: int) -> Seq<u8> {
    if v < 0 {
        seq![MINUS] + dec_digits((-v) as nat)
    } else {
        dec_digits(v as nat)
    }
}

/// The bytes that store one token: an integer as ` N \n`, a string as
/// `"S"\n`.
pub open spec fn render_token(t: TokenData) -> Seq<u8> {
    match t {
        TokenData::Int(v) => seq![SPACE] + dec_bytes(v as int) + seq![SPACE, LF],
        TokenData::Str(s) => seq![QUOTE] + s + seq![QUOTE, LF],
    }
}

/// The bytes that store a token sequence, in order.
pub open spec fn render(ts: Seq<TokenData>) -> Seq<u8>
    decreases ts.len(),
{
    if ts.len() == 0 {
        Seq::empty()
    } else {
        render_token(ts[0]) + render(ts.drop_first())
    }
}

/// Rendering distributes over concatenation.
pub proof fn lemma_render_concat(a: Seq<TokenData>, b: Seq<TokenData>)
    ensures
        render(a + b) == render(a) + render(b),
    decreases a.len(),
{
    if a.len() == 0 {
        assert(a + b =~= b);
        assert(render(a) + render(b) =~= render(b));
    } else {
        assert((a + b).drop_first() =~= a.drop_first() + b);
        lemma_render_concat(a.drop_first(), b);
        assert((a + b)[0] == a[0]);
        assert(render_token(a[0]) + (render(a.drop_first()) + render(b)) =~= (render_token(a[0])
            + render(a.drop_first())) + render(b));
    }
}

/// Rendering one more token appends that token's bytes.
pub proof fn lemma_render_take_succ(ts: Seq<TokenData>, k: int)
    requires
        0 <= k < ts.len(),
    ensures
        render(ts.take(k + 1)) == render(ts.take(k)) + render_token(ts[k]),
{
    assert(ts.take(k + 1) =~= ts.take(k) + seq![ts[k]]);
    lemma_render_concat(ts.take(k), seq![ts[k]]);
    assert(seq![ts[k]].drop_first() =~= Seq::<TokenData>::empty());
    assert(render(Seq::<TokenData>::empty()) == Seq::<u8>::empty());
    assert(render(seq![ts[k]]) == render_token(seq![ts[k]][0]) + render(
        seq![ts[k]].drop_first(),
    ));
    assert(render_token(ts[k]) + Seq::<u8>::empty() =~= render_token(ts[k]));
}

/// The tokens that store the header: its twelve integers, with the five
/// counts decremented back to their on-disk form.
pub open spec fn header_tokens(h: Header) -> Seq<TokenData> {
    seq![
        TokenData::Int(h.unknown0),
        TokenData::Int((h.num_items - 1) as i32),
        TokenData::Int((h.num_actions - 1) as i32),
        TokenData::Int((h.num_words - 1) as i32),
        TokenData::Int((h.num_rooms - 1) as i32),
        TokenData::Int(h.max_inventory),
        TokenData::Int(h.starting_room),
        TokenData::Int(h.num_treasures),
        TokenData::Int(h.word_length),
        TokenData::Int(h.light_duration),
        TokenData::Int((h.num_messages - 1) as i32),
        TokenData::Int(h.treasure_room),
    ]
}

/// The tokens that store one action: the packed verb/noun integer, five
/// packed conditions, and two integers each packing two sub-actions.
pub open spec fn action_tokens(a: ActionV) -> Seq<TokenData> {
    seq![
        TokenData::Int((a.verb_index * 150 + a.noun_index) as i32),
        TokenData::Int(cond_code(a.conditions[0]) as i32),
        TokenData::Int(cond_code(a.conditions[1]) as i32),
        TokenData::Int(cond_code(a.conditions[2]) as i32),
        TokenData::Int(cond_code(a.conditions[3]) as i32),
        TokenData::Int(cond_code(a.conditions[4]) as i32),
        TokenData::Int((at_code(a.actions[0]) * 150 + at_code(a.actions[1])) as i32),
        TokenData::Int((at_code(a.actions[2]) * 150 + at_code(a.actions[3])) as i32),
    ]
}

/// The tokens that store the action table.
pub open spec fn actions_tokens(s: Seq<ActionV>) -> Seq<TokenData> {
    s.flat_map(|a: ActionV| action_tokens(a))
}

/// The string that stores a word: its text, with `*` back in front of a
/// synonym.
pub open spec fn word_str(w: WordV) -> Seq<u8> {
    if w.is_synonym {
        seq![STAR] + w.word
    } else {
        w.word
    }
}

/// The tokens that store one verb/noun pair.
pub open spec fn word_pair_tokens(vn: (WordV, WordV)) -> Seq<TokenData> {
    seq![TokenData::Str(word_str(vn.0)), TokenData::Str(word_str(vn.1))]
}

/// The tokens that store the vocabulary: verb/noun pairs, interleaved.
pub open spec fn words_tokens(verbs: Seq<WordV>, nouns: Seq<WordV>) -> Seq<TokenData> {
    Seq::new(verbs.len(), |i: int| (verbs[i], nouns[i])).flat_map(
        |vn: (WordV, WordV)| word_pair_tokens(vn),
    )
}

/// The tokens that store one room: six exits, then the description, with
/// `*` back in front of a literal one.
pub open spec fn room_tokens(room: RoomV) -> Seq<TokenData> {
    seq![
        TokenData::Int(room.exits[0]),
        TokenData::Int(room.exits[1]),
        TokenData::Int(room.exits[2]),
        TokenData::Int(room.exits[3]),
        TokenData::Int(room.exits[4]),
        TokenData::Int(room.exits[5]),
        TokenData::Str(word_str(WordV { word: room.description, is_synonym: room.is_literal })),
    ]
}

/// The tokens that store the room list.
pub open spec fn rooms_tokens(s: Seq<RoomV>) -> Seq<TokenData> {
    s.flat_map(|room: RoomV| room_tokens(room))
}

/// The tokens that store the message list.
pub open spec fn messages_tokens(s: Seq<Seq<u8>>) -> Seq<TokenData> {
    s.flat_map(|m: Seq<u8>| seq![TokenData::Str(m)])
}

/// The string that stores an item: its description, with the `/NAME/`
/// suffix back in place when the item has an autograb name.
pub open spec fn item_str(i: ItemV) -> Seq<u8> {
    match i.autograb {
        Some(g) => i.description + seq![SLASH] + g + seq![SLASH],
        None => i.description,
    }
}

/// The tokens that store one item: its description, then its location.
pub open spec fn item_tokens(i: ItemV) -> Seq<TokenData> {
    seq![TokenData::Str(item_str(i)), TokenData::Int(i.location)]
}

/// The tokens that store the item list.
pub open spec fn items_tokens(s: Seq<ItemV>) -> Seq<TokenData> {
    s.flat_map(|i: ItemV| item_tokens(i))
}

/// The string that stores a comment: the comment itself, or the empty
/// string for an action without one.
pub open spec fn comment_str(c: Option<Seq<u8>>) -> Seq<u8> {
    match c {
        Some(s) => s,
        None => Seq::empty(),
    }
}

/// The tokens that store the comment block: one string per action.
pub open spec fn comments_tokens(s: Seq<ActionV>) -> Seq<TokenData> {
    s.flat_map(|a: ActionV| seq![TokenData::Str(comment_str(a.comment))])
}

/// The tokens that store the footer.
pub open spec fn footer_tokens(f: Footer) -> Seq<TokenData> {
    seq![TokenData::Int(f.version), TokenData::Int(f.adventure), TokenData::Int(f.magic)]
}

/// The tokens that store a whole game: the sections in fixed file order.
pub open spec fn game_tokens(g: GameV) -> Seq<TokenData> {
    header_tokens(g.header) + actions_tokens(g.actions) + words_tokens(g.verbs, g.nouns)
        + rooms_tokens(g.rooms) + messages_tokens(g.messages) + items_tokens(g.items)
        + comments_tokens(g.actions) + footer_tokens(g.footer)
}

/// Whether an action's packed fields fit back into 32-bit integers: it has
/// exactly five conditions and four sub-actions, and each packed value is
/// in range. Every action the decoder produces satisfies this.
pub open spec fn action_encodable(a: ActionV) -> bool {
    &&& a.conditions.len() == 5
    &&& a.actions.len() == 4
    &&& i32::MIN <= a.verb_index * 150 + a.noun_index <= i32::MAX
    &&& (forall|i: int| 0 <= i < 5 ==> cond_encodable(#[trigger] a.conditions[i]))
    &&& i32::MIN <= at_code(a.actions[0]) * 150 + at_code(a.actions[1]) <= i32::MAX
    &&& i32::MIN <= at_code(a.actions[2]) * 150 + at_code(a.actions[3]) <= i32::MAX
}

/// Whether a game can be encoded at all: the five adjusted header counts
/// can be decremented back, the vocabulary is in pairs, and every action's
/// packed fields fit. Every game the decoder produces satisfies this.
pub open spec fn game_encodable(g: GameV) -> bool {
    &&& g.header.num_items > i32::MIN
    &&& g.header.num_actions > i32::MIN
    &&& g.header.num_words > i32::MIN
    &&& g.header.num_rooms > i32::MIN
    &&& g.header.num_messages > i32::MIN
    &&& g.verbs.len() == g.nouns.len()
    &&& (forall|i: int| 0 <= i < g.actions.len() ==> action_encodable(#[trigger] g.actions[i]))
}

/// Appends the decimal digits of `n`.
fn push_dec(out: &mut Vec<u8>, n: u32)
    ensures
        final(out)@ == old(out)@ + dec_digits(n as nat),
    decreases n,
{
    if n < 10 {
        out.push(DIGIT0 + (n as u8));
        proof {
            assert(out@ =~= old(out)@ + dec_digits(n as nat));
        }
    } else {
        push_dec(out, n / 10);
        out.push(DIGIT0 + ((n % 10) as u8));
        proof {
            assert(out@ =~= old(out)@ + dec_digits(n as nat));
        }
    }
}

/// Appends one integer token: a space, the decimal value, a space, and a
/// newline.
fn push_int_token(out: &mut Vec<u8>, v: i32)
    ensures
        final(out)@ == old(out)@ + render_token(TokenData::Int(v)),
{
    out.push(SPACE);
    if v < 0 {
        out.push(MINUS);
        let mag: u32 = (-(v as i64)) as u32;
        push_dec(out, mag);
    } else {
        push_dec(out, v as u32);
    }
    out.push(SPACE);
    out.push(LF);
    proof {
        assert(out@ =~= old(out)@ + render_token(TokenData::Int(v)));
    }
}

/// Appends the given bytes.
fn push_bytes(out: &mut Vec<u8>, s: &Vec<u8>)
    ensures
        final(out)@ == old(out)@ + s@,
{
    let mut i: usize = 0;
    while i < s.len()
        invariant
            i <= s@.len(),
            out@ == old(out)@ + s@.take(i as int),
        decreases s@.len() - i,
    {
        out.push(s[i]);
        proof {
            assert(old(out)@ + s@.take(i as int) + seq![s@[i as int]] =~= old(out)@ + s@.take(
                i + 1,
            ));
            assert(out@ =~= old(out)@ + s@.take(i + 1));
        }
        i += 1;
    }
    proof {
        assert(old(out)@ + s@.take(s@.len() as int) =~= old(out)@ + s@);
    }
}

/// Appends one string token: the bytes between double quotes, then a
/// newline.
fn push_str_token(out: &mut Vec<u8>, s: &Vec<u8>)
    ensures
        final(out)@ == old(out)@ + render_token(TokenData::Str(s@)),
{
    out.push(QUOTE);
    push_bytes(out, s);
    out.push(QUOTE);
    out.push(LF);
    proof {
        assert(out@ =~= old(out)@ + render_token(TokenData::Str(s@)));
    }
}

/// Writes the header.
#[verifier::rlimit(100)]
fn write_header(out: &mut Vec<u8>, header: &Header)
    requires
        header.num_items > i32::MIN,
        header.num_actions > i32::MIN,
        header.num_words > i32::MIN,
        header.num_rooms > i32::MIN,
        header.num_messages > i32::MIN,
    ensures
        final(out)@ == old(out)@ + render(header_tokens(*header)),
{
    let ghost hts = header_tokens(*header);
    let ghost base = out@;
    proof {
        assert(hts.take(0) =~= Seq::<TokenData>::empty());
        assert(base + render(hts.take(0)) =~= base);
    }
    push_int_token(out, header.unknown0);
    proof {
        lemma_render_take_succ(hts, 0);
        assert(out@ =~= base + render(hts.take(1)));
    }
    push_int_token(out, header.num_items - 1);
    proof {
        lemma_render_take_succ(hts, 1);
        assert(out@ =~= base + render(hts.take(2)));
    }
    push_int_token(out, header.num_actions - 1);
    proof {
        lemma_render_take_succ(hts, 2);
        assert(out@ =~= base + render(hts.take(3)));
    }
    push_int_token(out, header.num_words - 1);
    proof {
        lemma_render_take_succ(hts, 3);
        assert(out@ =~= base + render(hts.take(4)));
    }
    push_int_token(out, header.num_rooms - 1);
    proof {
        lemma_render_take_succ(hts, 4);
        assert(out@ =~= base + render(hts.take(5)));
    }
    push_int_token(out, header.max_inventory);
    proof {
        lemma_render_take_succ(hts, 5);
        assert(out@ =~= base + render(hts.take(6)));
    }
    push_int_token(out, header.starting_room);
    proof {
        lemma_render_take_succ(hts, 6);
        assert(out@ =~= base + render(hts.take(7)));
    }
    push_int_token(out, header.num_treasures);
    proof {
        lemma_render_take_succ(hts, 7);
        assert(out@ =~= base + render(hts.take(8)));
    }
    push_int_token(out, header.word_length);
    proof {
        lemma_render_take_succ(hts, 8);
        assert(out@ =~= base + render(hts.take(9)));
    }
    push_int_token(out, header.light_duration);
    proof {
        lemma_render_take_succ(hts, 9);
        assert(out@ =~= base + render(hts.take(10)));
    }
    push_int_token(out, header.num_messages - 1);
    proof {
        lemma_render_take_succ(hts, 10);
        assert(out@ =~= base + render(hts.take(11)));
    }
    push_int_token(out, header.treasure_room);
    proof {
        lemma_render_take_succ(hts, 11);
        assert(out@ =~= base + render(hts.take(12)));
        assert(hts.take(12) =~= hts);
    }
}

/// Writes a single action.
fn write_action(out: &mut Vec<u8>, action: &Action)
    requires
        action_encodable(action@),
    ensures
        final(out)@ == old(out)@ + render(action_tokens(action@)),
{
    let ghost ats = action_tokens(action@);
    let ghost base = out@;
    proof {
        assert(ats.take(0) =~= Seq::<TokenData>::empty());
        assert(base + render(ats.take(0)) =~= base);
    }
    let packed: i64 = (action.verb_index as i64) * 150 + (action.noun_index as i64);
    push_int_token(out, packed as i32);
    proof {
        lemma_render_take_succ(ats, 0);
        assert(out@ =~= base + render(ats.take(1)));
    }
    push_int_token(out, action.conditions[0].to_i32());
    proof {
        lemma_render_take_succ(ats, 1);
        assert(out@ =~= base + render(ats.take(2)));
    }
    push_int_token(out, action.conditions[1].to_i32());
    proof {
        lemma_render_take_succ(ats, 2);
        assert(out@ =~= base + render(ats.take(3)));
    }
    push_int_token(out, action.conditions[2].to_i32());
    proof {
        lemma_render_take_succ(ats, 3);
        assert(out@ =~= base + render(ats.take(4)));
    }
    push_int_token(out, action.conditions[3].to_i32());
    proof {
        lemma_render_take_succ(ats, 4);
        assert(out@ =~= base + render(ats.take(5)));
    }
    push_int_token(out, action.conditions[4].to_i32());
    proof {
        lemma_render_take_succ(ats, 5);
        assert(out@ =~= base + render(ats.take(6)));
    }
    let a0: i64 = action.actions[0].to_i32() as i64;
    let a1: i64 = action.actions[1].to_i32() as i64;
    let a2: i64 = action.actions[2].to_i32() as i64;
    let a3: i64 = action.actions[3].to_i32() as i64;
    push_int_token(out, (a0 * 150 + a1) as i32);
    proof {
        lemma_render_take_succ(ats, 6);
        assert(out@ =~= base + render(ats.take(7)));
    }
    push_int_token(out, (a2 * 150 + a3) as i32);
    proof {
        lemma_render_take_succ(ats, 7);
        assert(out@ =~= base + render(ats.take(8)));
        assert(ats.take(8) =~= ats);
    }
}

/// Writes all actions.
fn write_actions(out: &mut Vec<u8>, actions: &Vec<Action>)
    requires
        forall|i: int|
            0 <= i < actions@.len() ==> action_encodable(#[trigger] actions@[i]@),
    ensures
        final(out)@ == old(out)@ + render(
            actions_tokens(actions@.map_values(|a: Action| a@)),
        ),
{
    let ghost avs = actions@.map_values(|a: Action| a@);
    let ghost f = |a: ActionV| action_tokens(a);
    let mut k: usize = 0;
    proof {
        assert(avs.take(0).flat_map(f) =~= Seq::<TokenData>::empty());
    }
    while k < actions.len()
        invariant
            k <= avs.len(),
            out@ == old(out)@ + render(avs.take(k as int).flat_map(f)),
        decreases avs.len() - k,
    {
        write_action(out, &actions[k]);
        proof {
            avs.lemma_flat_map_take_append(f, k as int);
            lemma_render_concat(avs.take(k as int).flat_map(f), f(avs[k as int]));
        }
        k += 1;
    }
    proof {
        assert(avs.take(avs.len() as int) =~= avs);
    }
}

/// Writes a single word, restoring the `*` prefix of a synonym.
fn write_word(out: &mut Vec<u8>, word: &Word)
    ensures
        final(out)@ == old(out)@ + render_token(TokenData::Str(word_str(word@))),
{
    out.push(QUOTE);
    if word.is_synonym {
        out.push(STAR);
    }
    push_bytes(out, &word.word);
    out.push(QUOTE);
    out.push(LF);
    proof {
        assert(out@ =~= old(out)@ + render_token(TokenData::Str(word_str(word@))));
    }
}

/// Writes all words, interleaving verbs and nouns.
fn write_words(out: &mut Vec<u8>, verbs: &Vec<Word>, nouns: &Vec<Word>)
    requires
        verbs@.len() == nouns@.len(),
    ensures
        final(out)@ == old(out)@ + render(
            words_tokens(
                verbs@.map_values(|w: Word| w@),
                nouns@.map_values(|w: Word| w@),
            ),
        ),
{
    let ghost vs = verbs@.map_values(|w: Word| w@);
    let ghost ns = nouns@.map_values(|w: Word| w@);
    let ghost pairs = Seq::new(vs.len(), |i: int| (vs[i], ns[i]));
    let ghost f = |vn: (WordV, WordV)| word_pair_tokens(vn);
    let mut k: usize = 0;
    proof {
        assert(pairs.take(0).flat_map(f) =~= Seq::<TokenData>::empty());
        reveal_with_fuel(render, 3);
    }
    while k < verbs.len()
        invariant
            k <= pairs.len(),
            out@ == old(out)@ + render(pairs.take(k as int).flat_map(f)),
        decreases pairs.len() - k,
    {
        let ghost pre = out@;
        write_word(out, &verbs[k]);
        write_word(out, &nouns[k]);
        proof {
            assert(out@ =~= pre + render(f(pairs[k as int])));
            pairs.lemma_flat_map_take_append(f, k as int);
            lemma_render_concat(pairs.take(k as int).flat_map(f), f(pairs[k as int]));
        }
        k += 1;
    }
    proof {
        assert(pairs.take(pairs.len() as int) =~= pairs);
    }
}

/// Writes a single room, restoring the `*` prefix of a literal
/// description.
#[verifier::rlimit(100)]
fn write_room(out: &mut Vec<u8>, room: &Room)
    ensures
        final(out)@ == old(out)@ + render(room_tokens(room@)),
{
    let ghost rts = room_tokens(room@);
    let ghost base = out@;
    proof {
        assert(rts.take(0) =~= Seq::<TokenData>::empty());
        assert(base + render(rts.take(0)) =~= base);
    }
    push_int_token(out, room.exits[0]);
    proof {
        lemma_render_take_succ(rts, 0);
        assert(out@ =~= base + render(rts.take(1)));
    }
    push_int_token(out, room.exits[1]);
    proof {
        lemma_render_take_succ(rts, 1);
        assert(out@ =~= base + render(rts.take(2)));
    }
    push_int_token(out, room.exits[2]);
    proof {
        lemma_render_take_succ(rts, 2);
        assert(out@ =~= base + render(rts.take(3)));
    }
    push_int_token(out, room.exits[3]);
    proof {
        lemma_render_take_succ(rts, 3);
        assert(out@ =~= base + render(rts.take(4)));
    }
    push_int_token(out, room.exits[4]);
    proof {
        lemma_render_take_succ(rts, 4);
        assert(out@ =~= base + render(rts.take(5)));
    }
    push_int_token(out, room.exits[5]);
    proof {
        lemma_render_take_succ(rts, 5);
        assert(out@ =~= base + render(rts.take(6)));
    }
    let ghost mark = out@;
    out.push(QUOTE);
    if room.is_literal {
        out.push(STAR);
    }
    push_bytes(out, &room.description);
    out.push(QUOTE);
    out.push(LF);
    proof {
        assert(out@ =~= mark + render_token(
            TokenData::Str(word_str(WordV { word: room.description@, is_synonym: room.is_literal })),
        ));
        lemma_render_take_succ(rts, 6);
        assert(out@ =~= base + render(rts.take(7)));
        assert(rts.take(7) =~= rts);
    }
}

/// Writes all rooms.
fn write_rooms(out: &mut Vec<u8>, rooms: &Vec<Room>)
    ensures
        final(out)@ == old(out)@ + render(rooms_tokens(rooms@.map_values(|room: Room| room@))),
{
    let ghost rvs = rooms@.map_values(|room: Room| room@);
    let ghost f = |room: RoomV| room_tokens(room);
    let mut k: usize = 0;
    proof {
        assert(rvs.take(0).flat_map(f) =~= Seq::<TokenData>::empty());
    }
    while k < rooms.len()
        invariant
            k <= rvs.len(),
            out@ == old(out)@ + render(rvs.take(k as int).flat_map(f)),
        decreases rvs.len() - k,
    {
        write_room(out, &rooms[k]);
        proof {
            rvs.lemma_flat_map_take_append(f, k as int);
            lemma_render_concat(rvs.take(k as int).flat_map(f), f(rvs[k as int]));
        }
        k += 1;
    }
    proof {
        assert(rvs.take(rvs.len() as int) =~= rvs);
    }
}

/// Writes all messages.
fn write_messages(out: &mut Vec<u8>, messages: &Vec<Vec<u8>>)
    ensures
        final(out)@ == old(out)@ + render(
            messages_tokens(messages@.map_values(|m: Vec<u8>| m@)),
        ),
{
    let ghost ms = messages@.map_values(|m: Vec<u8>| m@);
    let ghost f = |m: Seq<u8>| seq![TokenData::Str(m)];
    let mut k: usize = 0;
    proof {
        assert(ms.take(0).flat_map(f) =~= Seq::<TokenData>::empty());
        reveal_with_fuel(render, 2);
    }
    while k < messages.len()
        invariant
            k <= ms.len(),
            out@ == old(out)@ + render(ms.take(k as int).flat_map(f)),
        decreases ms.len() - k,
    {
        let ghost pre = out@;
        push_str_token(out, &messages[k]);
        proof {
            assert(out@ =~= pre + render(f(ms[k as int])));
            ms.lemma_flat_map_take_append(f, k as int);
            lemma_render_concat(ms.take(k as int).flat_map(f), f(ms[k as int]));
        }
        k += 1;
    }
    proof {
        assert(ms.take(ms.len() as int) =~= ms);
    }
}

/// Writes a single item, restoring the `/NAME/` suffix of one with an
/// autograb name.
fn write_item(out: &mut Vec<u8>, item: &Item)
    ensures
        final(out)@ == old(out)@ + render(item_tokens(item@)),
{
    proof {
        reveal_with_fuel(render, 3);
    }
    out.push(QUOTE);
    push_bytes(out, &item.description);
    match &item.autograb {
        Some(grab) => {
            out.push(SLASH);
            push_bytes(out, grab);
            out.push(SLASH);
        },
        None => {},
    }
    out.push(QUOTE);
    out.push(LF);
    push_int_token(out, item.location);
    proof {
        assert(out@ =~= old(out)@ + render(item_tokens(item@)));
    }
}

/// Writes all items.
fn write_items(out: &mut Vec<u8>, items: &Vec<Item>)
    ensures
        final(out)@ == old(out)@ + render(items_tokens(items@.map_values(|i: Item| i@))),
{
    let ghost ivs = items@.map_values(|i: Item| i@);
    let ghost f = |i: ItemV| item_tokens(i);
    let mut k: usize = 0;
    proof {
        assert(ivs.take(0).flat_map(f) =~= Seq::<TokenData>::empty());
    }
    while k < items.len()
        invariant
            k <= ivs.len(),
            out@ == old(out)@ + render(ivs.take(k as int).flat_map(f)),
        decreases ivs.len() - k,
    {
        write_item(out, &items[k]);
        proof {
            ivs.lemma_flat_map_take_append(f, k as int);
            lemma_render_concat(ivs.take(k as int).flat_map(f), f(ivs[k as int]));
        }
        k += 1;
    }
    proof {
        assert(ivs.take(ivs.len() as int) =~= ivs);
    }
}

/// Writes all comments: one quoted string per action, empty for an action
/// without one.
fn write_comments(out: &mut Vec<u8>, actions: &Vec<Action>)
    ensures
        final(out)@ == old(out)@ + render(
            comments_tokens(actions@.map_values(|a: Action| a@)),
        ),
{
    let ghost avs = actions@.map_values(|a: Action| a@);
    let ghost f = |a: ActionV| seq![TokenData::Str(comment_str(a.comment))];
    let mut k: usize = 0;
    proof {
        assert(avs.take(0).flat_map(f) =~= Seq::<TokenData>::empty());
        reveal_with_fuel(render, 2);
    }
    while k < actions.len()
        invariant
            k <= avs.len(),
            out@ == old(out)@ + render(avs.take(k as int).flat_map(f)),
        decreases avs.len() - k,
    {
        let ghost pre = out@;
        match &actions[k].comment {
            Some(comment) => {
                push_str_token(out, comment);
            },
            None => {
                out.push(QUOTE);
                out.push(QUOTE);
                out.push(LF);
                proof {
                    assert(out@ =~= pre + render_token(
                        TokenData::Str(comment_str(avs[k as int].comment)),
                    ));
                }
            },
        }
        proof {
            assert(out@ =~= pre + render(f(avs[k as int])));
            avs.lemma_flat_map_take_append(f, k as int);
            lemma_render_concat(avs.take(k as int).flat_map(f), f(avs[k as int]));
        }
        k += 1;
    }
    proof {
        assert(avs.take(avs.len() as int) =~= avs);
    }
}

/// Writes the footer.
fn write_footer(out: &mut Vec<u8>, footer: &Footer)
    ensures
        final(out)@ == old(out)@ + render(footer_tokens(*footer)),
{
    proof {
        reveal_with_fuel(render, 4);
    }
    push_int_token(out, footer.version);
    push_int_token(out, footer.adventure);
    push_int_token(out, footer.magic);
    proof {
        assert(out@ =~= old(out)@ + render(footer_tokens(*footer)));
    }
}

/// Writes a game into the byte form the decoder reads: the exact rendering
/// of the game's token sequence. This is the inverse of `parse_game`.
pub fn write_game(game: &Game) -> (out: Vec<u8>)
    requires
        game_encodable(game@),
    ensures
        out@ == render(game_tokens(game@)),
{
    let mut out: Vec<u8> = Vec::new();
    proof {
        assert forall|i: int|
            0 <= i < game.actions@.len() implies action_encodable(
            #[trigger] game.actions@[i]@,
        ) by {
            assert(game@.actions[i] == game.actions@[i]@);
        }
    }
    write_header(&mut out, &game.header);
    write_actions(&mut out, &game.actions);
    write_words(&mut out, &game.verbs, &game.nouns);
    write_rooms(&mut out, &game.rooms);
    write_messages(&mut out, &game.messages);
    write_items(&mut out, &game.items);
    write_comments(&mut out, &game.actions);
    write_footer(&mut out, &game.footer);
    proof {
        let g = game@;
        let t1 = header_tokens(g.header);
        let t2 = actions_tokens(g.actions);
        let t3 = words_tokens(g.verbs, g.nouns);
        let t4 = rooms_tokens(g.rooms);
        let t5 = messages_tokens(g.messages);
        let t6 = items_tokens(g.items);
        let t7 = comments_tokens(g.actions);
        let t8 = footer_tokens(g.footer);
        lemma_render_concat(t1, t2);
        lemma_render_concat(t1 + t2, t3);
        lemma_render_concat(t1 + t2 + t3, t4);
        lemma_render_concat(t1 + t2 + t3 + t4, t5);
        lemma_render_concat(t1 + t2 + t3 + t4 + t5, t6);
        lemma_render_concat(t1 + t2 + t3 + t4 + t5 + t6, t7);
        lemma_render_concat(t1 + t2 + t3 + t4 + t5 + t6 + t7, t8);
        assert(out@ =~= render(game_tokens(g)));
    }
    out
}


/// Pulling one integer splits the token data into that integer and the rest.
proof fn lemma_next_int_exact(ts: Seq<TokenV>, v: i32, r: Seq<TokenV>)
    requires
        spec_next_int(ts) == Ok::<(i32, Seq<TokenV>), ParseError>((v, r)),
    ensures
        datas(ts) == seq![TokenData::Int(v)] + datas(r),
{
    assert(datas(ts) =~= seq![TokenData::Int(v)] + datas(r));
}

/// Pulling one string splits the token data into that string and the rest.
proof fn lemma_next_str_exact(ts: Seq<TokenV>, s: Seq<u8>, r: Seq<TokenV>)
    requires
        spec_next_str(ts) == Ok::<(Seq<u8>, Seq<TokenV>), ParseError>((s, r)),
    ensures
        datas(ts) == seq![TokenData::Str(s)] + datas(r),
{
    assert(datas(ts) =~= seq![TokenData::Str(s)] + datas(r));
}

/// Pulling `n` integers splits the token data into those integers and the
/// rest.
proof fn lemma_next_ints_exact(ts: Seq<TokenV>, n: nat, vs: Seq<i32>, r: Seq<TokenV>)
    requires
        spec_next_ints(ts, n) == Ok::<(Seq<i32>, Seq<TokenV>), ParseError>((vs, r)),
    ensures
        vs.len() == n,
        datas(ts) == vs.map_values(|v: i32| TokenData::Int(v)) + datas(r),
    decreases n,
{
    let f = |v: i32| TokenData::Int(v);
    if n == 0 {
        assert(datas(ts) =~= vs.map_values(f) + datas(r));
    } else {
        if let Ok((v0, r0)) = spec_next_int(ts) {
            if let Ok((vs1, r1)) = spec_next_ints(r0, (n - 1) as nat) {
                lemma_next_int_exact(ts, v0, r0);
                lemma_next_ints_exact(r0, (n - 1) as nat, vs1, r1);
                assert(vs =~= seq![v0] + vs1);
                assert(datas(ts) =~= vs.map_values(f) + datas(r));
            }
        }
    }
}

/// A decoded header re-encodes to exactly the twelve integers it was
/// decoded from, and its five counts can be decremented back.
proof fn lemma_header_exact(ts: Seq<TokenV>, h: Header, r: Seq<TokenV>)
    requires
        spec_parse_header(ts) == Ok::<(Header, Seq<TokenV>), ParseError>((h, r)),
    ensures
        datas(ts) == header_tokens(h) + datas(r),
        h.num_items > i32::MIN,
        h.num_actions > i32::MIN,
        h.num_words > i32::MIN,
        h.num_rooms > i32::MIN,
        h.num_messages > i32::MIN,
{
    if let Ok((vs, r2)) = spec_next_ints(ts, 12) {
        lemma_next_ints_exact(ts, 12, vs, r2);
        assert(vs.map_values(|v: i32| TokenData::Int(v)) =~= header_tokens(h));
    }
}

/// Every packed condition integer decodes to a condition that encodes
/// back to it.
proof fn lemma_cond_code_of(v: i32)
    ensures
        cond_code(spec_cond_of(v as int)) == v,
        cond_encodable(spec_cond_of(v as int)),
{
    lemma_fundamental_div_mod(v as int, 20);
    lemma_mod_bound(v as int, 20);
}

/// Every raw opcode in 32-bit range decodes to a sub-action that encodes
/// back to it.
proof fn lemma_at_code_of(v: int)
    requires
        i32::MIN <= v <= i32::MAX,
    ensures
        at_code(spec_at_of(v)) == v,
        at_wf(spec_at_of(v)),
{
}

/// A decoded action re-encodes to exactly the eight integers it was
/// decoded from; it is encodable and not yet commented.
proof fn lemma_action_exact(ts: Seq<TokenV>, a: ActionV, r: Seq<TokenV>)
    requires
        spec_parse_action(ts) == Ok::<(ActionV, Seq<TokenV>), ParseError>((a, r)),
    ensures
        datas(ts) == action_tokens(a) + datas(r),
        action_canonical(a),
        a.comment is None,
{
    if let Ok((vn, r1)) = spec_next_int(ts) {
        if let Ok((cs, r2)) = spec_next_ints(r1, 5) {
            if let Ok((ats, r3)) = spec_next_ints(r2, 2) {
                lemma_next_int_exact(ts, vn, r1);
                lemma_next_ints_exact(r1, 5, cs, r2);
                lemma_next_ints_exact(r2, 2, ats, r3);
                lemma_fundamental_div_mod(vn as int, 150);
                lemma_mod_bound(vn as int, 150);
                lemma_cond_code_of(cs[0]);
                lemma_cond_code_of(cs[1]);
                lemma_cond_code_of(cs[2]);
                lemma_cond_code_of(cs[3]);
                lemma_cond_code_of(cs[4]);
                lemma_fundamental_div_mod(ats[0] as int, 150);
                lemma_mod_bound(ats[0] as int, 150);
                lemma_fundamental_div_mod(ats[1] as int, 150);
                lemma_mod_bound(ats[1] as int, 150);
                lemma_at_code_of(ats[0] as int / 150);
                lemma_at_code_of(ats[0] as int % 150);
                lemma_at_code_of(ats[1] as int / 150);
                lemma_at_code_of(ats[1] as int % 150);
                assert(action_tokens(a) =~= seq![TokenData::Int(vn)] + cs.map_values(
                    |v: i32| TokenData::Int(v),
                ) + ats.map_values(|v: i32| TokenData::Int(v)));
                assert(datas(ts) =~= action_tokens(a) + datas(r));
            }
        }
    }
}

/// A decoded action table re-encodes to exactly the tokens it was decoded
/// from.
proof fn lemma_actions_exact(ts: Seq<TokenV>, n: nat, s: Seq<ActionV>, r: Seq<TokenV>)
    requires
        spec_parse_actions(ts, n) == Ok::<(Seq<ActionV>, Seq<TokenV>), ParseError>((s, r)),
    ensures
        s.len() == n,
        datas(ts) == actions_tokens(s) + datas(r),
        forall|i: int|
            0 <= i < s.len() ==> action_canonical(#[trigger] s[i]) && s[i].comment is None,
    decreases n,
{
    let f = |a: ActionV| action_tokens(a);
    if n == 0 {
        assert(s.map_values(f) =~= Seq::<Seq<TokenData>>::empty());
        assert(datas(ts) =~= actions_tokens(s) + datas(r));
    } else {
        if let Ok((a0, r0)) = spec_parse_action(ts) {
            if let Ok((s1, r1)) = spec_parse_actions(r0, (n - 1) as nat) {
                lemma_action_exact(ts, a0, r0);
                lemma_actions_exact(r0, (n - 1) as nat, s1, r1);
                assert(s =~= seq![a0] + s1);
                assert(s.map_values(f) =~= seq![f(a0)] + s1.map_values(f));
                assert(s.map_values(f).drop_first() =~= s1.map_values(f));
                assert(actions_tokens(s) == f(a0) + actions_tokens(s1));
                assert(datas(ts) =~= actions_tokens(s) + datas(r));
            }
        }
    }
}

/// A decoded word re-encodes to exactly the string it was decoded from.
proof fn lemma_word_exact(s: Seq<u8>)
    ensures
        word_str(spec_word_of(s)) == s,
        word_canonical(spec_word_of(s)),
{
    assert(word_str(spec_word_of(s)) =~= s);
}

/// A decoded vocabulary re-encodes to exactly the tokens it was decoded
/// from.
proof fn lemma_words_exact(
    ts: Seq<TokenV>,
    n: nat,
    verbs: Seq<WordV>,
    nouns: Seq<WordV>,
    r: Seq<TokenV>,
)
    requires
        spec_parse_words(ts, n) == Ok::<((Seq<WordV>, Seq<WordV>), Seq<TokenV>), ParseError>(
            ((verbs, nouns), r),
        ),
    ensures
        verbs.len() == n,
        nouns.len() == n,
        datas(ts) == words_tokens(verbs, nouns) + datas(r),
        forall|i: int| 0 <= i < verbs.len() ==> word_canonical(#[trigger] verbs[i]),
        forall|i: int| 0 <= i < nouns.len() ==> word_canonical(#[trigger] nouns[i]),
    decreases n,
{
    let f = |vn: (WordV, WordV)| word_pair_tokens(vn);
    if n == 0 {
        assert(Seq::new(verbs.len(), |i: int| (verbs[i], nouns[i])).map_values(f) =~= Seq::<
            Seq<TokenData>,
        >::empty());
        assert(datas(ts) =~= words_tokens(verbs, nouns) + datas(r));
    } else {
        if let Ok((v0, r0)) = spec_next_str(ts) {
            if let Ok((w0, r1)) = spec_next_str(r0) {
                if let Ok(((vs1, ns1), r2)) = spec_parse_words(r1, (n - 1) as nat) {
                    lemma_next_str_exact(ts, v0, r0);
                    lemma_next_str_exact(r0, w0, r1);
                    lemma_words_exact(r1, (n - 1) as nat, vs1, ns1, r2);
                    lemma_word_exact(v0);
                    lemma_word_exact(w0);
                    let pairs = Seq::new(verbs.len(), |i: int| (verbs[i], nouns[i]));
                    let pairs1 = Seq::new(vs1.len(), |i: int| (vs1[i], ns1[i]));
                    assert(pairs =~= seq![(spec_word_of(v0), spec_word_of(w0))] + pairs1);
                    assert(pairs.map_values(f) =~= seq![f(pairs[0])] + pairs1.map_values(f));
                    assert(pairs.map_values(f).drop_first() =~= pairs1.map_values(f));
                    assert(words_tokens(verbs, nouns) == f(pairs[0]) + words_tokens(vs1, ns1));
                    assert(datas(ts) =~= words_tokens(verbs, nouns) + datas(r));
                }
            }
        }
    }
}

/// A decoded room re-encodes to exactly the tokens it was decoded from.
proof fn lemma_room_exact(ts: Seq<TokenV>, room: RoomV, r: Seq<TokenV>)
    requires
        spec_parse_room(ts) == Ok::<(RoomV, Seq<TokenV>), ParseError>((room, r)),
    ensures
        datas(ts) == room_tokens(room) + datas(r),
        room_canonical(room),
{
    if let Ok((es, r1)) = spec_next_ints(ts, 6) {
        if let Ok((s, r2)) = spec_next_str(r1) {
            lemma_next_ints_exact(ts, 6, es, r1);
            lemma_next_str_exact(r1, s, r2);
            lemma_word_exact(s);
            assert(room_tokens(room) =~= es.map_values(|v: i32| TokenData::Int(v)) + seq![
                TokenData::Str(s),
            ]);
            assert(datas(ts) =~= room_tokens(room) + datas(r));
        }
    }
}

/// A decoded room list re-encodes to exactly the tokens it was decoded
/// from.
proof fn lemma_rooms_exact(ts: Seq<TokenV>, n: nat, s: Seq<RoomV>, r: Seq<TokenV>)
    requires
        spec_parse_rooms(ts, n) == Ok::<(Seq<RoomV>, Seq<TokenV>), ParseError>((s, r)),
    ensures
        s.len() == n,
        datas(ts) == rooms_tokens(s) + datas(r),
        forall|i: int| 0 <= i < s.len() ==> room_canonical(#[trigger] s[i]),
    decreases n,
{
    let f = |room: RoomV| room_tokens(room);
    if n == 0 {
        assert(s.map_values(f) =~= Seq::<Seq<TokenData>>::empty());
        assert(datas(ts) =~= rooms_tokens(s) + datas(r));
    } else {
        if let Ok((room0, r0)) = spec_parse_room(ts) {
            if let Ok((s1, r1)) = spec_parse_rooms(r0, (n - 1) as nat) {
                lemma_room_exact(ts, room0, r0);
                lemma_rooms_exact(r0, (n - 1) as nat, s1, r1);
                assert(s =~= seq![room0] + s1);
                assert(s.map_values(f) =~= seq![f(room0)] + s1.map_values(f));
                assert(s.map_values(f).drop_first() =~= s1.map_values(f));
                assert(rooms_tokens(s) == f(room0) + rooms_tokens(s1));
                assert(datas(ts) =~= rooms_tokens(s) + datas(r));
            }
        }
    }
}

/// A decoded message list re-encodes to exactly the tokens it was decoded
/// from.
proof fn lemma_messages_exact(ts: Seq<TokenV>, n: nat, s: Seq<Seq<u8>>, r: Seq<TokenV>)
    requires
        spec_parse_messages(ts, n) == Ok::<(Seq<Seq<u8>>, Seq<TokenV>), ParseError>((s, r)),
    ensures
        s.len() == n,
        datas(ts) == messages_tokens(s) + datas(r),
    decreases n,
{
    let f = |m: Seq<u8>| seq![TokenData::Str(m)];
    if n == 0 {
        assert(s.map_values(f) =~= Seq::<Seq<TokenData>>::empty());
        assert(datas(ts) =~= messages_tokens(s) + datas(r));
    } else {
        if let Ok((m0, r0)) = spec_next_str(ts) {
            if let Ok((s1, r1)) = spec_parse_messages(r0, (n - 1) as nat) {
                lemma_next_str_exact(ts, m0, r0);
                lemma_messages_exact(r0, (n - 1) as nat, s1, r1);
                assert(s =~= seq![m0] + s1);
                assert(s.map_values(f) =~= seq![f(m0)] + s1.map_values(f));
                assert(s.map_values(f).drop_first() =~= s1.map_values(f));
                assert(messages_tokens(s) == f(m0) + messages_tokens(s1));
                assert(datas(ts) =~= messages_tokens(s) + datas(r));
            }
        }
    }
}

/// Where the last `/` of a sequence stands, there is a `/`.
proof fn lemma_last_slash_props(s: Seq<u8>)
    requires
        last_slash(s) >= 0,
    ensures
        last_slash(s) < s.len(),
        s[last_slash(s)] == SLASH,
    decreases s.len(),
{
    if s.len() == 0 {
    } else if s.last() == SLASH {
    } else {
        lemma_last_slash_props(s.drop_last());
    }
}

/// Past the last `/` of a sequence no `/` stands.
proof fn lemma_last_slash_max(s: Seq<u8>)
    ensures
        last_slash(s) >= -1,
        forall|k: int| last_slash(s) < k < s.len() ==> #[trigger] s[k] != SLASH,
    decreases s.len(),
{
    if s.len() == 0 {
    } else if s.last() == SLASH {
    } else {
        lemma_last_slash_max(s.drop_last());
        assert(last_slash(s) == last_slash(s.drop_last()));
        assert forall|k: int| last_slash(s) < k < s.len() implies #[trigger] s[k] != SLASH by {
            if k < s.len() - 1 {
                assert(0 <= k < s.drop_last().len());
                assert(s.drop_last()[k] == s.subrange(0, s.len() - 1)[k]);
                assert(s.subrange(0, s.len() - 1)[k] == s[k]);
                assert(s.drop_last()[k] != SLASH);
            } else {
                assert(s[k] == s.last());
            }
        }
    }
}

/// A decoded item re-encodes to exactly the string it was decoded from:
/// stripping the `/NAME/` suffix and putting it back is the identity.
proof fn lemma_item_str_exact(s: Seq<u8>, loc: i32)
    ensures
        item_str(spec_item_of(s, loc)) == s,
        spec_item_of(s, loc).location == loc,
        item_canonical(spec_item_of(s, loc)),
{
    if has_autograb(s) {
        let front = s.take(s.len() - 1);
        let j = last_slash(front);
        lemma_last_slash_props(front);
        lemma_last_slash_max(front);
        assert(s[j] == SLASH);
        assert(item_str(spec_item_of(s, loc)) =~= s);
        // the extracted name holds no delimiter: it lies past the last one
        assert forall|i: int|
            0 <= i < s.subrange(j + 1, s.len() - 1).len() implies #[trigger] s.subrange(
            j + 1,
            s.len() - 1,
        )[i] != SLASH by {
            assert(s.subrange(j + 1, s.len() - 1)[i] == front[i + j + 1]);
        }
        // the treasure marker reads the same off the stored string and the
        // stripped description
        if j > 0 {
            assert(s.take(j)[0] == s[0]);
        }
    }
}

/// A decoded item list re-encodes to exactly the tokens it was decoded
/// from.
proof fn lemma_items_exact(ts: Seq<TokenV>, n: nat, s: Seq<ItemV>, r: Seq<TokenV>)
    requires
        spec_parse_items(ts, n) == Ok::<(Seq<ItemV>, Seq<TokenV>), ParseError>((s, r)),
    ensures
        s.len() == n,
        datas(ts) == items_tokens(s) + datas(r),
        forall|i: int| 0 <= i < s.len() ==> item_canonical(#[trigger] s[i]),
    decreases n,
{
    let f = |i: ItemV| item_tokens(i);
    if n == 0 {
        assert(s.map_values(f) =~= Seq::<Seq<TokenData>>::empty());
        assert(datas(ts) =~= items_tokens(s) + datas(r));
    } else {
        if let Ok((i0, r0)) = spec_parse_item(ts) {
            if let Ok((s1, r1)) = spec_parse_items(r0, (n - 1) as nat) {
                if let Ok((str0, ra)) = spec_next_str(ts) {
                    if let Ok((loc0, rb)) = spec_next_int(ra) {
                        lemma_next_str_exact(ts, str0, ra);
                        lemma_next_int_exact(ra, loc0, rb);
                        lemma_item_str_exact(str0, loc0);
                        lemma_items_exact(r0, (n - 1) as nat, s1, r1);
                        assert(s =~= seq![i0] + s1);
                        assert(s.map_values(f) =~= seq![f(i0)] + s1.map_values(f));
                        assert(s.map_values(f).drop_first() =~= s1.map_values(f));
                        assert(items_tokens(s) == f(i0) + items_tokens(s1));
                        assert(datas(ts) =~= items_tokens(s) + datas(r));
                    }
                }
            }
        }
    }
}

/// A decoded comment block re-encodes to exactly the tokens it was
/// decoded from, and filling in comments changes nothing else about the
/// actions.
proof fn lemma_comments_exact(ts: Seq<TokenV>, avs: Seq<ActionV>, out: Seq<ActionV>, r: Seq<TokenV>)
    requires
        spec_parse_comments(ts, avs) == Ok::<(Seq<ActionV>, Seq<TokenV>), ParseError>((out, r)),
    ensures
        out.len() == avs.len(),
        datas(ts) == comments_tokens(out) + datas(r),
        forall|i: int|
            0 <= i < out.len() ==> action_tokens(#[trigger] out[i]) == action_tokens(avs[i])
                && comment_canonical(out[i]) && (action_canonical(avs[i]) ==> action_canonical(
                out[i],
            )),
    decreases avs.len(),
{
    let f = |a: ActionV| seq![TokenData::Str(comment_str(a.comment))];
    if avs.len() == 0 {
        assert(out.map_values(f) =~= Seq::<Seq<TokenData>>::empty());
        assert(datas(ts) =~= comments_tokens(out) + datas(r));
    } else {
        if let Ok((c0, r0)) = spec_next_str(ts) {
            if let Ok((out1, r1)) = spec_parse_comments(r0, avs.drop_first()) {
                lemma_next_str_exact(ts, c0, r0);
                lemma_comments_exact(r0, avs.drop_first(), out1, r1);
                let a0 = set_comment(avs[0], c0);
                assert(comment_str(a0.comment) == c0);
                assert(out =~= seq![a0] + out1);
                assert(out.map_values(f) =~= seq![f(a0)] + out1.map_values(f));
                assert(out.map_values(f).drop_first() =~= out1.map_values(f));
                assert(comments_tokens(out) == f(a0) + comments_tokens(out1));
                assert(datas(ts) =~= comments_tokens(out) + datas(r));
            }
        }
    }
}

/// A decoded footer re-encodes to exactly the three integers it was
/// decoded from.
proof fn lemma_footer_exact(ts: Seq<TokenV>, f: Footer, r: Seq<TokenV>)
    requires
        spec_parse_footer(ts) == Ok::<(Footer, Seq<TokenV>), ParseError>((f, r)),
    ensures
        datas(ts) == footer_tokens(f) + datas(r),
{
    if let Ok((vs, r2)) = spec_next_ints(ts, 3) {
        lemma_next_ints_exact(ts, 3, vs, r2);
        assert(vs.map_values(|v: i32| TokenData::Int(v)) =~= footer_tokens(f));
        assert(datas(ts) =~= footer_tokens(f) + datas(r));
    }
}

/// The decoder is exact: a decoded game re-encodes to exactly the tokens
/// that were consumed, and is encodable.
#[verifier::rlimit(100)]
pub proof fn lemma_parse_exact(ts: Seq<TokenV>, g: GameV, r: Seq<TokenV>)
    requires
        spec_parse_game(ts) == Ok::<(GameV, Seq<TokenV>), ParseError>((g, r)),
    ensures
        datas(ts) == game_tokens(g) + datas(r),
        game_canonical(g),
{
    if let Ok((header, r1)) = spec_parse_header(ts) {
        if let Ok((actions, r2)) = spec_parse_actions(r1, count_of(header.num_actions)) {
            if let Ok(((verbs, nouns), r3)) = spec_parse_words(r2, count_of(header.num_words)) {
                if let Ok((rooms, r4)) = spec_parse_rooms(r3, count_of(header.num_rooms)) {
                    if let Ok((messages, r5)) = spec_parse_messages(
                        r4,
                        count_of(header.num_messages),
                    ) {
                        if let Ok((items, r6)) = spec_parse_items(r5, count_of(header.num_items)) {
                            if let Ok((actions2, r7)) = spec_parse_comments(r6, actions) {
                                if let Ok((footer, r8)) = spec_parse_footer(r7) {
                                    lemma_header_exact(ts, header, r1);
                                    lemma_actions_exact(
                                        r1,
                                        count_of(header.num_actions),
                                        actions,
                                        r2,
                                    );
                                    lemma_words_exact(
                                        r2,
                                        count_of(header.num_words),
                                        verbs,
                                        nouns,
                                        r3,
                                    );
                                    lemma_rooms_exact(r3, count_of(header.num_rooms), rooms, r4);
                                    lemma_messages_exact(
                                        r4,
                                        count_of(header.num_messages),
                                        messages,
                                        r5,
                                    );
                                    lemma_items_exact(r5, count_of(header.num_items), items, r6);
                                    lemma_comments_exact(r6, actions, actions2, r7);
                                    lemma_footer_exact(r7, footer, r8);
                                    assert(actions2.map_values(|a: ActionV| action_tokens(a)) =~=
                                        actions.map_values(|a: ActionV| action_tokens(a)));
                                    assert(actions_tokens(actions2) == actions_tokens(actions));
                                    assert(datas(ts) =~= game_tokens(g) + datas(r));
                                }
                            }
                        }
                    }
                }
            }
        }
    }
}

/// Round-trip identity: a valid game file — one whose bytes tokenize
/// successfully, stand in the canonical rendering of their own tokens, and
/// decode completely into a game — is reproduced byte for byte when that
/// game is encoded again.
pub proof fn lemma_round_trip(bytes: Seq<u8>, ts: Seq<TokenV>, g: GameV)
    requires
        spec_tokenize(bytes) == Ok::<Seq<TokenV>, TokenError>(ts),
        bytes == render(datas(ts)),
        spec_parse_game(ts) == Ok::<(GameV, Seq<TokenV>), ParseError>((g, Seq::empty())),
    ensures
        game_canonical(g),
        game_encodable(g),
        render(game_tokens(g)) == bytes,
{
    lemma_parse_exact(ts, g, Seq::empty());
    assert(datas(Seq::<TokenV>::empty()) =~= Seq::<TokenData>::empty());
    assert(game_tokens(g) + Seq::<TokenData>::empty() =~= game_tokens(g));
}

/// Header count adjustment: a header whose on-disk item count is `n`
/// decodes with `num_items == n + 1`, and encoding writes `n` back.
pub proof fn lemma_header_count_adjustment(ts: Seq<TokenV>, h: Header, rest: Seq<TokenV>, n: i32)
    requires
        spec_parse_header(ts) == Ok::<(Header, Seq<TokenV>), ParseError>((h, rest)),
        tok_data(ts[1]) == TokenData::Int(n),
    ensures
        h.num_items == n + 1,
        header_tokens(h)[1] == TokenData::Int(n),
{
    if let Ok((vs, r2)) = spec_next_ints(ts, 12) {
        lemma_next_ints_exact(ts, 12, vs, r2);
        let f = |v: i32| TokenData::Int(v);
        assert(datas(ts).len() == ts.len());
        assert(vs.map_values(f).len() == 12);
        assert(datas(ts)[1] == (vs.map_values(f) + datas(r2))[1]);
        assert((vs.map_values(f) + datas(r2))[1] == vs.map_values(f)[1]);
        assert(vs.map_values(f)[1] == TokenData::Int(vs[1]));
        assert(datas(ts)[1] == tok_data(ts[1]));
    }
}


/// Word synonym marker: a stored word with a leading `*` decodes as a
/// synonym with the marker stripped, one without decodes verbatim, and
/// encoding reverses both cases exactly.
pub proof fn lemma_word_marker(s: Seq<u8>)
    ensures
        spec_word_of(s).is_synonym == (s.len() > 0 && s[0] == STAR),
        spec_word_of(s).is_synonym ==> spec_word_of(s).word == s.drop_first(),
        !spec_word_of(s).is_synonym ==> spec_word_of(s).word == s,
        word_str(spec_word_of(s)) == s,
{
    lemma_word_exact(s);
}

/// Item autograb extraction: decoding a stored item description keeps the
/// location, reads the treasure marker off the leading `*` (which stays
/// part of the description), and strips a trailing `/NAME/` suffix into
/// the autograb name exactly when one is present; re-encoding restores
/// the stored string.
pub proof fn lemma_item_marker(s: Seq<u8>, loc: i32)
    ensures
        spec_item_of(s, loc).location == loc,
        spec_item_of(s, loc).is_treasure == (s.len() > 0 && s[0] == STAR),
        spec_item_of(s, loc).autograb is Some <==> has_autograb(s),
        has_autograb(s) ==> spec_item_of(s, loc).description == s.take(
            last_slash(s.take(s.len() - 1)),
        ) && spec_item_of(s, loc).autograb == Some(
            s.subrange(last_slash(s.take(s.len() - 1)) + 1, s.len() - 1),
        ),
        !has_autograb(s) ==> spec_item_of(s, loc).description == s,
        item_str(spec_item_of(s, loc)) == s,
{
    lemma_item_str_exact(s, loc);
}


/// The decimal digits of `n` are digit bytes whose value reads back as `n`.
proof fn lemma_dec_digits_val(n: nat)
    ensures
        digits_val(dec_digits(n)) == n,
        dec_digits(n).len() >= 1,
        forall|i: int| 0 <= i < dec_digits(n).len() ==> is_digit_byte(#[trigger] dec_digits(n)[i]),
    decreases n,
{
    if n < 10 {
        assert(dec_digits(n) == seq![(DIGIT0 + n) as u8]);
        assert(dec_digits(n).len() == 1);
        assert(dec_digits(n).drop_last() =~= Seq::<u8>::empty());
        assert(digits_val(dec_digits(n).drop_last()) == 0);
        assert(dec_digits(n).last() == (DIGIT0 + n) as u8);
        assert(digits_val(dec_digits(n)) == (DIGIT0 + n) as u8 - DIGIT0);
    } else {
        lemma_dec_digits_val(n / 10);
        lemma_fundamental_div_mod(n as int, 10);
        lemma_mod_bound(n as int, 10);
        let s = dec_digits(n / 10);
        let d = (DIGIT0 + n % 10) as u8;
        assert(dec_digits(n) == s.push(d));
        assert(s.push(d).drop_last() =~= s);
        assert(s.push(d).last() == d);
        assert(digits_val(dec_digits(n)) == digits_val(s) * 10 + (d - DIGIT0));
        assert(d - DIGIT0 == n % 10);
        assert(digits_val(s) * 10 + n % 10 == n);
        assert forall|i: int| 0 <= i < dec_digits(n).len() implies is_digit_byte(
            #[trigger] dec_digits(n)[i],
        ) by {
            if i < s.len() {
                assert(dec_digits(n)[i] == s[i]);
            } else {
                assert(dec_digits(n)[i] == d);
            }
        }
    }
}

/// Reading digit bytes while inside an integer literal appends them to the
/// digit accumulator and changes nothing else.
proof fn lemma_lex_run_digits(st: LexState, ds: Seq<u8>)
    requires
        st.state is Num,
        forall|i: int| 0 <= i < ds.len() ==> is_digit_byte(#[trigger] ds[i]),
    ensures
        lex_run(st, ds) matches Ok(s2) && s2.state is Num && s2.neg == st.neg && s2.digits
            == st.digits + ds && s2.text == st.text && s2.token_loc == st.token_loc && s2.tokens
            == st.tokens,
    decreases ds.len(),
{
    if ds.len() == 0 {
        assert(st.digits + ds =~= st.digits);
    } else {
        if let Ok(s1) = lex_step(st, ds[0]) {
            lemma_lex_run_digits(s1, ds.drop_first());
            assert(st.digits.push(ds[0]) + ds.drop_first() =~= st.digits + ds);
        }
    }
}

/// A byte sequence with no quote and no backslash in it.
pub open spec fn clean_text(s: Seq<u8>) -> bool {
    forall|i: int| 0 <= i < s.len() ==> #[trigger] s[i] != QUOTE && s[i] != BACKSLASH
}

/// Reading clean bytes while inside a string literal appends them to the
/// text accumulator and changes nothing else.
proof fn lemma_lex_run_text(st: LexState, s: Seq<u8>)
    requires
        st.state is Quote,
        clean_text(s),
    ensures
        lex_run(st, s) matches Ok(s2) && s2.state is Quote && s2.text == st.text + s && s2.neg
            == st.neg && s2.digits == st.digits && s2.token_loc == st.token_loc && s2.tokens
            == st.tokens,
    decreases s.len(),
{
    if s.len() == 0 {
        assert(st.text + s =~= st.text);
    } else {
        if let Ok(s1) = lex_step(st, s[0]) {
            lemma_lex_run_text(s1, s.drop_first());
            assert(st.text.push(s[0]) + s.drop_first() =~= st.text + s);
        }
    }
}

/// Running over a single byte is one step.
proof fn lemma_lex_run_one(st: LexState, b: u8)
    ensures
        lex_run(st, seq![b]) == lex_step(st, b),
{
    assert(seq![b].len() == 1);
    assert(seq![b][0] == b);
    assert(seq![b].drop_first() =~= Seq::<u8>::empty());
    if let Ok(s2) = lex_step(st, b) {
        assert(lex_run(s2, seq![b].drop_first()) == Ok::<LexState, TokenError>(s2));
    }
}

/// Reading the rendering of one integer token from between tokens emits
/// exactly that integer and returns between tokens.
proof fn lemma_lex_int_token(st: LexState, v: i32)
    requires
        st.state is Init,
    ensures
        lex_run(st, render_token(TokenData::Int(v))) matches Ok(s2) && s2.state is Init && datas(
            s2.tokens,
        ) == datas(st.tokens).push(TokenData::Int(v)),
{
    let r = render_token(TokenData::Int(v));
    let body = dec_bytes(v as int);
    let tail = seq![SPACE, LF];
    let mag: nat = if v < 0 {
        (-(v as int)) as nat
    } else {
        v as nat
    };
    let dd = dec_digits(mag);
    lemma_dec_digits_val(mag);

    assert(r =~= seq![SPACE] + (body + tail));
    lemma_lex_run_concat(st, seq![SPACE], body + tail);
    lemma_lex_run_one(st, SPACE);
    if let Ok(st1) = lex_step(st, SPACE) {
        assert(st1.state is Init && st1.tokens == st.tokens);
        lemma_lex_run_concat(st1, body, tail);
        // the digits (after the sign, when there is one) put the machine in
        // the integer state with exactly the rendered digits accumulated
        if v < 0 {
            assert(body =~= seq![MINUS] + dd);
            lemma_lex_run_concat(st1, seq![MINUS], dd);
            lemma_lex_run_one(st1, MINUS);
            if let Ok(stm) = lex_step(st1, MINUS) {
                assert(stm.state is Sign && stm.neg && stm.digits == Seq::<u8>::empty()
                    && stm.tokens == st.tokens);
                assert(dd =~= seq![dd[0]] + dd.drop_first());
                lemma_lex_run_concat(stm, seq![dd[0]], dd.drop_first());
                lemma_lex_run_one(stm, dd[0]);
                assert(is_digit_byte(dd[0]));
                if let Ok(std0) = lex_step(stm, dd[0]) {
                    assert(std0.state is Num && std0.neg && std0.digits == seq![dd[0]]
                        && std0.tokens == st.tokens);
                    lemma_lex_run_digits(std0, dd.drop_first());
                    assert(seq![dd[0]] + dd.drop_first() =~= dd);
                }
            }
        } else {
            assert(body == dd);
            assert(dd =~= seq![dd[0]] + dd.drop_first());
            lemma_lex_run_concat(st1, seq![dd[0]], dd.drop_first());
            lemma_lex_run_one(st1, dd[0]);
            assert(is_digit_byte(dd[0]));
            if let Ok(std0) = lex_step(st1, dd[0]) {
                assert(std0.state is Num && !std0.neg && std0.digits == seq![dd[0]] && std0.tokens
                    == st.tokens);
                lemma_lex_run_digits(std0, dd.drop_first());
                assert(seq![dd[0]] + dd.drop_first() =~= dd);
            }
        }
        if let Ok(stn) = lex_run(st1, body) {
            assert(stn.state is Num && stn.digits == dd && stn.neg == (v < 0) && stn.tokens
                == st.tokens);
            // the space after the digits emits the integer; the newline is
            // skipped between tokens
            assert(tail =~= seq![SPACE] + seq![LF]);
            lemma_lex_run_concat(stn, seq![SPACE], seq![LF]);
            lemma_lex_run_one(stn, SPACE);
            assert(int_val(stn.neg, stn.digits) == v);
            if let Ok(se) = lex_step(stn, SPACE) {
                assert(se.state is Init && se.tokens == st.tokens.push(
                    TokenV::Int(v, stn.token_loc),
                ));
                lemma_lex_run_one(se, LF);
                if let Ok(sf) = lex_step(se, LF) {
                    assert(sf.state is Init && sf.tokens == se.tokens);
                    assert(lex_run(st, r) == Ok::<LexState, TokenError>(sf));
                    assert(datas(sf.tokens) =~= datas(st.tokens).push(TokenData::Int(v)));
                }
            }
        }
    }
}

/// Reading the rendering of one clean string token from between tokens
/// emits exactly that string and returns between tokens.
proof fn lemma_lex_str_token(st: LexState, s: Seq<u8>)
    requires
        st.state is Init,
        clean_text(s),
    ensures
        lex_run(st, render_token(TokenData::Str(s))) matches Ok(s2) && s2.state is Init && datas(
            s2.tokens,
        ) == datas(st.tokens).push(TokenData::Str(s)),
{
    let r = render_token(TokenData::Str(s));
    assert(r =~= seq![QUOTE] + (s + seq![QUOTE, LF]));
    lemma_lex_run_concat(st, seq![QUOTE], s + seq![QUOTE, LF]);
    lemma_lex_run_one(st, QUOTE);
    if let Ok(st1) = lex_step(st, QUOTE) {
        assert(st1.state is Quote && st1.text == Seq::<u8>::empty() && st1.tokens == st.tokens);
        lemma_lex_run_concat(st1, s, seq![QUOTE, LF]);
        lemma_lex_run_text(st1, s);
        if let Ok(st2) = lex_run(st1, s) {
            assert(st2.state is Quote && st2.tokens == st.tokens);
            assert(st2.text =~= s);
            assert(seq![QUOTE, LF] =~= seq![QUOTE] + seq![LF]);
            lemma_lex_run_concat(st2, seq![QUOTE], seq![LF]);
            lemma_lex_run_one(st2, QUOTE);
            if let Ok(st3) = lex_step(st2, QUOTE) {
                assert(st3.state is Init && st3.tokens == st.tokens.push(
                    TokenV::Str(s, st2.token_loc),
                ));
                lemma_lex_run_one(st3, LF);
                if let Ok(st4) = lex_step(st3, LF) {
                    assert(st4.state is Init && st4.tokens == st3.tokens);
                    assert(lex_run(st, r) == Ok::<LexState, TokenError>(st4));
                    assert(datas(st4.tokens) =~= datas(st.tokens).push(TokenData::Str(s)));
                }
            }
        }
    }
}

/// A token sequence whose strings are all clean.
pub open spec fn clean_tokens(ts: Seq<TokenData>) -> bool {
    forall|i: int|
        0 <= i < ts.len() ==> match #[trigger] ts[i] {
            TokenData::Int(_) => true,
            TokenData::Str(s) => clean_text(s),
        }
}

/// Reading the rendering of clean tokens from between tokens emits exactly
/// those tokens.
proof fn lemma_lex_render(st: LexState, ts: Seq<TokenData>)
    requires
        st.state is Init,
        clean_tokens(ts),
    ensures
        lex_run(st, render(ts)) matches Ok(s2) && s2.state is Init && datas(s2.tokens) == datas(
            st.tokens,
        ) + ts,
    decreases ts.len(),
{
    if ts.len() == 0 {
        assert(datas(st.tokens) + ts =~= datas(st.tokens));
    } else {
        lemma_lex_run_concat(st, render_token(ts[0]), render(ts.drop_first()));
        match ts[0] {
            TokenData::Int(v) => {
                lemma_lex_int_token(st, v);
            },
            TokenData::Str(s) => {
                lemma_lex_str_token(st, s);
            },
        }
        if let Ok(s1) = lex_run(st, render_token(ts[0])) {
            lemma_lex_render(s1, ts.drop_first());
            assert(datas(s1.tokens) + ts.drop_first() =~= datas(st.tokens) + ts);
        }
    }
}

/// The tokenizer inverts the renderer: the canonical rendering of clean
/// tokens tokenizes successfully, back to exactly those tokens. Strings
/// holding a quote or a backslash have no rendering in this format (the
/// encoder does not escape), so they are excluded. Together with
/// `write_game`'s contract this says that whatever the encoder writes is
/// read back as the game's own token sequence.
pub proof fn lemma_tokenize_render(ts: Seq<TokenData>)
    requires
        clean_tokens(ts),
    ensures
        spec_tokenize(render(ts)) matches Ok(ts2) && datas(ts2) == ts,
{
    lemma_spec_lex_is_run(render(ts));
    lemma_lex_render(lex_init(), ts);
    if let Ok(s2) = lex_run(lex_init(), render(ts)) {
        assert(datas(Seq::<TokenV>::empty()) =~= Seq::<TokenData>::empty());
        assert(Seq::<TokenData>::empty() + ts =~= ts);
    }
}


/// An encodable condition decodes back from its own code.
proof fn lemma_cond_of_code(c: Condition)
    requires
        cond_encodable(c),
    ensures
        spec_cond_of(cond_code(c)) == c,
{
    lemma_fundamental_div_mod_converse(cond_code(c), 20, cond_param(c) as int, cond_type(c));
}

/// A well-formed sub-action decodes back from its own opcode.
proof fn lemma_at_of_code(x: ActionType)
    requires
        at_wf(x),
    ensures
        spec_at_of(at_code(x)) == x,
{
}

/// Pulling `n` integers from a stream whose first `n` tokens hold exactly
/// those integers yields them and the stream beyond them.
proof fn lemma_ints_complete(ts: Seq<TokenV>, vs: Seq<i32>)
    requires
        vs.len() <= ts.len(),
        forall|i: int| 0 <= i < vs.len() ==> tok_data(#[trigger] ts[i]) == TokenData::Int(vs[i]),
    ensures
        spec_next_ints(ts, vs.len()) == Ok::<(Seq<i32>, Seq<TokenV>), ParseError>(
            (vs, ts.skip(vs.len() as int)),
        ),
    decreases vs.len(),
{
    if vs.len() == 0 {
        assert(ts.skip(0) =~= ts);
        assert(vs =~= Seq::<i32>::empty());
    } else {
        assert(tok_data(ts[0]) == TokenData::Int(vs[0]));
        assert(spec_next_int(ts) == Ok::<(i32, Seq<TokenV>), ParseError>((vs[0], ts.drop_first())));
        lemma_ints_complete(ts.drop_first(), vs.drop_first());
        assert(seq![vs[0]] + vs.drop_first() =~= vs);
        assert(ts.drop_first().skip(vs.len() - 1) =~= ts.skip(vs.len() as int));
    }
}

/// The header that re-encodes to the first twelve tokens of a stream is
/// what decoding that stream yields.
proof fn lemma_header_complete(ts: Seq<TokenV>, h: Header)
    requires
        12 <= ts.len(),
        h.num_items > i32::MIN,
        h.num_actions > i32::MIN,
        h.num_words > i32::MIN,
        h.num_rooms > i32::MIN,
        h.num_messages > i32::MIN,
        forall|i: int| 0 <= i < 12 ==> tok_data(#[trigger] ts[i]) == header_tokens(h)[i],
    ensures
        spec_parse_header(ts) == Ok::<(Header, Seq<TokenV>), ParseError>((h, ts.skip(12))),
{
    let vs = seq![
        h.unknown0,
        (h.num_items - 1) as i32,
        (h.num_actions - 1) as i32,
        (h.num_words - 1) as i32,
        (h.num_rooms - 1) as i32,
        h.max_inventory,
        h.starting_room,
        h.num_treasures,
        h.word_length,
        h.light_duration,
        (h.num_messages - 1) as i32,
        h.treasure_room,
    ];
    assert forall|i: int| 0 <= i < 12 implies tok_data(#[trigger] ts[i]) == TokenData::Int(
        vs[i],
    ) by {
        assert(header_tokens(h)[i] == TokenData::Int(vs[i]));
    }
    lemma_ints_complete(ts, vs);
}

/// The footer that re-encodes to the first three tokens of a stream is
/// what decoding that stream yields.
proof fn lemma_footer_complete(ts: Seq<TokenV>, f: Footer)
    requires
        3 <= ts.len(),
        forall|i: int| 0 <= i < 3 ==> tok_data(#[trigger] ts[i]) == footer_tokens(f)[i],
    ensures
        spec_parse_footer(ts) == Ok::<(Footer, Seq<TokenV>), ParseError>((f, ts.skip(3))),
{
    let vs = seq![f.version, f.adventure, f.magic];
    assert forall|i: int| 0 <= i < 3 implies tok_data(#[trigger] ts[i]) == TokenData::Int(
        vs[i],
    ) by {
        assert(footer_tokens(f)[i] == TokenData::Int(vs[i]));
    }
    lemma_ints_complete(ts, vs);
}


/// When every piece has the same length, flattening a map multiplies it.
proof fn lemma_flat_map_len<T>(s: Seq<T>, f: spec_fn(T) -> Seq<TokenData>, k: nat)
    requires
        forall|i: int| 0 <= i < s.len() ==> (#[trigger] f(s[i])).len() == k,
    ensures
        s.flat_map(f).len() == k * s.len(),
    decreases s.len(),
{
    if s.len() == 0 {
        assert(s.map_values(f) =~= Seq::<Seq<TokenData>>::empty());
    } else {
        assert(s.map_values(f)[0] == f(s[0]));
        assert(s.map_values(f).drop_first() =~= s.drop_first().map_values(f));
        lemma_flat_map_len(s.drop_first(), f, k);
        assert(k * s.len() == k + k * (s.len() - 1)) by (nonlinear_arith)
            requires
                s.len() >= 1,
        ;
    }
}

/// An action exactly as the decoder produces it, before its comment is
/// filled in: encodable, with the second half of each packed pair in its
/// remainder range, well-formed sub-actions, and no comment yet.
pub open spec fn action_canonical(a: ActionV) -> bool {
    &&& action_encodable(a)
    &&& 0 <= a.noun_index < 150
    &&& 0 <= at_code(a.actions[1]) < 150
    &&& 0 <= at_code(a.actions[3]) < 150
    &&& at_wf(a.actions[0])
    &&& at_wf(a.actions[1])
    &&& at_wf(a.actions[2])
    &&& at_wf(a.actions[3])
}

/// The action that re-encodes to the first eight tokens of a stream is
/// what decoding that stream yields.
proof fn lemma_action_complete(ts: Seq<TokenV>, a: ActionV)
    requires
        8 <= ts.len(),
        action_canonical(a),
        a.comment is None,
        forall|i: int| 0 <= i < 8 ==> tok_data(#[trigger] ts[i]) == action_tokens(a)[i],
    ensures
        spec_parse_action(ts) == Ok::<(ActionV, Seq<TokenV>), ParseError>((a, ts.skip(8))),
{
    let vn = (a.verb_index * 150 + a.noun_index) as i32;
    let cs = seq![
        cond_code(a.conditions[0]) as i32,
        cond_code(a.conditions[1]) as i32,
        cond_code(a.conditions[2]) as i32,
        cond_code(a.conditions[3]) as i32,
        cond_code(a.conditions[4]) as i32,
    ];
    let ats = seq![
        (at_code(a.actions[0]) * 150 + at_code(a.actions[1])) as i32,
        (at_code(a.actions[2]) * 150 + at_code(a.actions[3])) as i32,
    ];
    assert(tok_data(ts[0]) == TokenData::Int(vn));
    assert(spec_next_int(ts) == Ok::<(i32, Seq<TokenV>), ParseError>((vn, ts.drop_first())));
    let r1 = ts.drop_first();
    assert forall|i: int| 0 <= i < 5 implies tok_data(#[trigger] r1[i]) == TokenData::Int(
        cs[i],
    ) by {
        assert(r1[i] == ts[i + 1]);
        assert(action_tokens(a)[i + 1] == TokenData::Int(cs[i]));
    }
    lemma_ints_complete(r1, cs);
    let r2 = r1.skip(5);
    assert forall|i: int| 0 <= i < 2 implies tok_data(#[trigger] r2[i]) == TokenData::Int(
        ats[i],
    ) by {
        assert(r2[i] == ts[i + 6]);
        assert(action_tokens(a)[i + 6] == TokenData::Int(ats[i]));
    }
    lemma_ints_complete(r2, ats);
    assert(r2.skip(2) =~= ts.skip(8));

    // the packed verb/noun integer splits back into its halves
    lemma_fundamental_div_mod_converse(
        vn as int,
        150,
        a.verb_index as int,
        a.noun_index as int,
    );
    // each condition code decodes back to its condition
    lemma_cond_of_code(a.conditions[0]);
    lemma_cond_of_code(a.conditions[1]);
    lemma_cond_of_code(a.conditions[2]);
    lemma_cond_of_code(a.conditions[3]);
    lemma_cond_of_code(a.conditions[4]);
    // each packed sub-action pair splits back into its opcodes
    lemma_fundamental_div_mod_converse(
        ats[0] as int,
        150,
        at_code(a.actions[0]),
        at_code(a.actions[1]),
    );
    lemma_fundamental_div_mod_converse(
        ats[1] as int,
        150,
        at_code(a.actions[2]),
        at_code(a.actions[3]),
    );
    lemma_at_of_code(a.actions[0]);
    lemma_at_of_code(a.actions[1]);
    lemma_at_of_code(a.actions[2]);
    lemma_at_of_code(a.actions[3]);

    if let Ok((av, rest)) = spec_parse_action(ts) {
        assert(av.conditions =~= a.conditions);
        assert(av.actions =~= a.actions);
        assert(av == a);
    }
}

/// The action table that re-encodes to the head of a stream is what
/// decoding that stream yields.
proof fn lemma_actions_complete(ts: Seq<TokenV>, s: Seq<ActionV>)
    requires
        8 * s.len() <= ts.len(),
        forall|j: int|
            0 <= j < s.len() ==> action_canonical(#[trigger] s[j]) && s[j].comment is None,
        datas(ts.take(8 * s.len() as int)) == actions_tokens(s),
    ensures
        spec_parse_actions(ts, s.len()) == Ok::<(Seq<ActionV>, Seq<TokenV>), ParseError>(
            (s, ts.skip(8 * s.len() as int)),
        ),
    decreases s.len(),
{
    let f = |a: ActionV| action_tokens(a);
    if s.len() == 0 {
        assert(ts.skip(0) =~= ts);
        assert(s =~= Seq::<ActionV>::empty());
    } else {
        assert(s.map_values(f)[0] == f(s[0]));
        assert(s.map_values(f).drop_first() =~= s.drop_first().map_values(f));
        assert(actions_tokens(s) == f(s[0]) + actions_tokens(s.drop_first()));
        lemma_flat_map_len(s.drop_first(), f, 8);
        assert forall|i: int| 0 <= i < 8 implies tok_data(#[trigger] ts[i]) == action_tokens(
            s[0],
        )[i] by {
            assert(datas(ts.take(8 * s.len() as int))[i] == tok_data(ts[i]));
            assert((f(s[0]) + actions_tokens(s.drop_first()))[i] == f(s[0])[i]);
        }
        lemma_action_complete(ts, s[0]);
        let r = ts.skip(8);
        assert forall|i: int|
            0 <= i < 8 * (s.len() - 1) implies tok_data(#[trigger] r.take(8 * (s.len() - 1))[i])
            == actions_tokens(s.drop_first())[i] by {
            assert(r.take(8 * (s.len() - 1))[i] == ts[i + 8]);
            assert(datas(ts.take(8 * s.len() as int))[i + 8] == tok_data(ts[i + 8]));
            assert((f(s[0]) + actions_tokens(s.drop_first()))[i + 8] == actions_tokens(
                s.drop_first(),
            )[i]);
        }
        assert(datas(r.take(8 * (s.len() - 1))) =~= actions_tokens(s.drop_first()));
        lemma_actions_complete(r, s.drop_first());
        assert(r.skip(8 * (s.len() - 1)) =~= ts.skip(8 * s.len() as int));
        assert(seq![s[0]] + s.drop_first() =~= s);
    }
}

/// A word exactly as the decoder produces it: a word that is no synonym
/// does not itself begin with the synonym marker (the decoder would have
/// stripped it).
pub open spec fn word_canonical(w: WordV) -> bool {
    !w.is_synonym ==> !(w.word.len() > 0 && w.word[0] == STAR)
}

/// A canonical word decodes back from its stored string.
proof fn lemma_word_of_str(w: WordV)
    requires
        word_canonical(w),
    ensures
        spec_word_of(word_str(w)) == w,
{
    if w.is_synonym {
        assert((seq![STAR] + w.word).drop_first() =~= w.word);
    }
}

/// The vocabulary that re-encodes to the head of a stream is what decoding
/// that stream yields.
proof fn lemma_words_complete(ts: Seq<TokenV>, verbs: Seq<WordV>, nouns: Seq<WordV>)
    requires
        verbs.len() == nouns.len(),
        2 * verbs.len() <= ts.len(),
        forall|j: int| 0 <= j < verbs.len() ==> word_canonical(#[trigger] verbs[j]),
        forall|j: int| 0 <= j < nouns.len() ==> word_canonical(#[trigger] nouns[j]),
        datas(ts.take(2 * verbs.len() as int)) == words_tokens(verbs, nouns),
    ensures
        spec_parse_words(ts, verbs.len()) == Ok::<
            ((Seq<WordV>, Seq<WordV>), Seq<TokenV>),
            ParseError,
        >(((verbs, nouns), ts.skip(2 * verbs.len() as int))),
    decreases verbs.len(),
{
    let f = |vn: (WordV, WordV)| word_pair_tokens(vn);
    let pairs = Seq::new(verbs.len(), |i: int| (verbs[i], nouns[i]));
    if verbs.len() == 0 {
        assert(ts.skip(0) =~= ts);
        assert(verbs =~= Seq::<WordV>::empty());
        assert(nouns =~= Seq::<WordV>::empty());
    } else {
        let pairs1 = Seq::new((verbs.len() - 1) as nat, |i: int| (verbs.drop_first()[i], nouns.drop_first()[i]));
        assert(pairs =~= seq![(verbs[0], nouns[0])] + pairs1);
        assert(pairs.map_values(f)[0] == f(pairs[0]));
        assert(pairs.map_values(f).drop_first() =~= pairs1.map_values(f));
        assert(words_tokens(verbs, nouns) == f(pairs[0]) + words_tokens(
            verbs.drop_first(),
            nouns.drop_first(),
        ));
        lemma_flat_map_len(pairs1, f, 2);
        assert(datas(ts.take(2 * verbs.len() as int))[0] == tok_data(ts[0]));
        assert(tok_data(ts[0]) == TokenData::Str(word_str(verbs[0])));
        assert(datas(ts.take(2 * verbs.len() as int))[1] == tok_data(ts[1]));
        assert(tok_data(ts[1]) == TokenData::Str(word_str(nouns[0])));
        lemma_word_of_str(verbs[0]);
        lemma_word_of_str(nouns[0]);
        assert(spec_next_str(ts) == Ok::<(Seq<u8>, Seq<TokenV>), ParseError>(
            (word_str(verbs[0]), ts.drop_first()),
        ));
        assert(ts.drop_first()[0] == ts[1]);
        assert(spec_next_str(ts.drop_first()) == Ok::<(Seq<u8>, Seq<TokenV>), ParseError>(
            (word_str(nouns[0]), ts.drop_first().drop_first()),
        ));
        let r = ts.skip(2);
        assert(ts.drop_first().drop_first() =~= r);
        assert forall|i: int|
            0 <= i < 2 * (verbs.len() - 1) implies tok_data(
            #[trigger] r.take(2 * (verbs.len() - 1))[i],
        ) == words_tokens(verbs.drop_first(), nouns.drop_first())[i] by {
            assert(r.take(2 * (verbs.len() - 1))[i] == ts[i + 2]);
            assert(datas(ts.take(2 * verbs.len() as int))[i + 2] == tok_data(ts[i + 2]));
            assert((f(pairs[0]) + words_tokens(verbs.drop_first(), nouns.drop_first()))[i + 2]
                == words_tokens(verbs.drop_first(), nouns.drop_first())[i]);
        }
        assert(datas(r.take(2 * (verbs.len() - 1))) =~= words_tokens(
            verbs.drop_first(),
            nouns.drop_first(),
        ));
        lemma_words_complete(r, verbs.drop_first(), nouns.drop_first());
        assert(r.skip(2 * (verbs.len() - 1)) =~= ts.skip(2 * verbs.len() as int));
        assert(seq![verbs[0]] + verbs.drop_first() =~= verbs);
        assert(seq![nouns[0]] + nouns.drop_first() =~= nouns);
    }
}

/// A room exactly as the decoder produces it: six exits, and a description
/// that does not itself begin with the literal marker unless it is one.
pub open spec fn room_canonical(r: RoomV) -> bool {
    &&& r.exits.len() == 6
    &&& word_canonical(WordV { word: r.description, is_synonym: r.is_literal })
}

/// The room that re-encodes to the first seven tokens of a stream is what
/// decoding that stream yields.
proof fn lemma_room_complete(ts: Seq<TokenV>, room: RoomV)
    requires
        7 <= ts.len(),
        room_canonical(room),
        forall|i: int| 0 <= i < 7 ==> tok_data(#[trigger] ts[i]) == room_tokens(room)[i],
    ensures
        spec_parse_room(ts) == Ok::<(RoomV, Seq<TokenV>), ParseError>((room, ts.skip(7))),
{
    assert forall|i: int| 0 <= i < 6 implies tok_data(#[trigger] ts[i]) == TokenData::Int(
        room.exits[i],
    ) by {
        assert(room_tokens(room)[i] == TokenData::Int(room.exits[i]));
    }
    lemma_ints_complete(ts, room.exits);
    let w = WordV { word: room.description, is_synonym: room.is_literal };
    assert(tok_data(ts.skip(6)[0]) == TokenData::Str(word_str(w)));
    lemma_word_of_str(w);
    assert(ts.skip(6).drop_first() =~= ts.skip(7));
}

/// The room list that re-encodes to the head of a stream is what decoding
/// that stream yields.
proof fn lemma_rooms_complete(ts: Seq<TokenV>, s: Seq<RoomV>)
    requires
        7 * s.len() <= ts.len(),
        forall|j: int| 0 <= j < s.len() ==> room_canonical(#[trigger] s[j]),
        datas(ts.take(7 * s.len() as int)) == rooms_tokens(s),
    ensures
        spec_parse_rooms(ts, s.len()) == Ok::<(Seq<RoomV>, Seq<TokenV>), ParseError>(
            (s, ts.skip(7 * s.len() as int)),
        ),
    decreases s.len(),
{
    let f = |room: RoomV| room_tokens(room);
    if s.len() == 0 {
        assert(ts.skip(0) =~= ts);
        assert(s =~= Seq::<RoomV>::empty());
    } else {
        assert(s.map_values(f)[0] == f(s[0]));
        assert(s.map_values(f).drop_first() =~= s.drop_first().map_values(f));
        assert(rooms_tokens(s) == f(s[0]) + rooms_tokens(s.drop_first()));
        lemma_flat_map_len(s.drop_first(), f, 7);
        assert forall|i: int| 0 <= i < 7 implies tok_data(#[trigger] ts[i]) == room_tokens(
            s[0],
        )[i] by {
            assert(datas(ts.take(7 * s.len() as int))[i] == tok_data(ts[i]));
            assert((f(s[0]) + rooms_tokens(s.drop_first()))[i] == f(s[0])[i]);
        }
        lemma_room_complete(ts, s[0]);
        let r = ts.skip(7);
        assert forall|i: int|
            0 <= i < 7 * (s.len() - 1) implies tok_data(#[trigger] r.take(7 * (s.len() - 1))[i])
            == rooms_tokens(s.drop_first())[i] by {
            assert(r.take(7 * (s.len() - 1))[i] == ts[i + 7]);
            assert(datas(ts.take(7 * s.len() as int))[i + 7] == tok_data(ts[i + 7]));
            assert((f(s[0]) + rooms_tokens(s.drop_first()))[i + 7] == rooms_tokens(
                s.drop_first(),
            )[i]);
        }
        assert(datas(r.take(7 * (s.len() - 1))) =~= rooms_tokens(s.drop_first()));
        lemma_rooms_complete(r, s.drop_first());
        assert(r.skip(7 * (s.len() - 1)) =~= ts.skip(7 * s.len() as int));
        assert(seq![s[0]] + s.drop_first() =~= s);
    }
}

/// The message list that re-encodes to the head of a stream is what
/// decoding that stream yields.
proof fn lemma_messages_complete(ts: Seq<TokenV>, s: Seq<Seq<u8>>)
    requires
        s.len() <= ts.len(),
        datas(ts.take(s.len() as int)) == messages_tokens(s),
    ensures
        spec_parse_messages(ts, s.len()) == Ok::<(Seq<Seq<u8>>, Seq<TokenV>), ParseError>(
            (s, ts.skip(s.len() as int)),
        ),
    decreases s.len(),
{
    let f = |m: Seq<u8>| seq![TokenData::Str(m)];
    if s.len() == 0 {
        assert(ts.skip(0) =~= ts);
        assert(s =~= Seq::<Seq<u8>>::empty());
    } else {
        assert(s.map_values(f)[0] == f(s[0]));
        assert(s.map_values(f).drop_first() =~= s.drop_first().map_values(f));
        assert(messages_tokens(s) == f(s[0]) + messages_tokens(s.drop_first()));
        lemma_flat_map_len(s.drop_first(), f, 1);
        assert(datas(ts.take(s.len() as int))[0] == tok_data(ts[0]));
        assert(tok_data(ts[0]) == TokenData::Str(s[0]));
        let r = ts.skip(1);
        assert(ts.drop_first() =~= r);
        assert forall|i: int|
            0 <= i < s.len() - 1 implies tok_data(#[trigger] r.take(s.len() - 1)[i])
            == messages_tokens(s.drop_first())[i] by {
            assert(r.take(s.len() - 1)[i] == ts[i + 1]);
            assert(datas(ts.take(s.len() as int))[i + 1] == tok_data(ts[i + 1]));
            assert((f(s[0]) + messages_tokens(s.drop_first()))[i + 1] == messages_tokens(
                s.drop_first(),
            )[i]);
        }
        assert(datas(r.take(s.len() - 1)) =~= messages_tokens(s.drop_first()));
        lemma_messages_complete(r, s.drop_first());
        assert(r.skip(s.len() - 1) =~= ts.skip(s.len() as int));
        assert(seq![s[0]] + s.drop_first() =~= s);
    }
}


/// A byte sequence without the autograb delimiter in it.
pub open spec fn no_slash(s: Seq<u8>) -> bool {
    forall|i: int| 0 <= i < s.len() ==> #[trigger] s[i] != SLASH
}

/// Appending delimiter-free bytes does not move the last delimiter.
proof fn lemma_last_slash_append(x: Seq<u8>, g: Seq<u8>)
    requires
        no_slash(g),
    ensures
        last_slash(x + g) == last_slash(x),
    decreases g.len(),
{
    if g.len() == 0 {
        assert(x + g =~= x);
    } else {
        assert((x + g).last() == g.last());
        assert((x + g).drop_last() =~= x + g.drop_last());
        lemma_last_slash_append(x, g.drop_last());
    }
}

/// An item exactly as the decoder produces it: the treasure flag reads the
/// leading marker, an autograb name holds no delimiter, and a description
/// without an autograb name carries no residual suffix shape.
pub open spec fn item_canonical(i: ItemV) -> bool {
    &&& i.is_treasure == (i.description.len() > 0 && i.description[0] == STAR)
    &&& match i.autograb {
        Some(g) => no_slash(g),
        None => !has_autograb(i.description),
    }
}

/// A canonical item decodes back from its stored string and location.
proof fn lemma_item_of_str(i: ItemV)
    requires
        item_canonical(i),
    ensures
        spec_item_of(item_str(i), i.location) == i,
{
    match i.autograb {
        Some(g) => {
            let d = i.description;
            let s = item_str(i);
            assert(s.take(s.len() - 1) =~= (d + seq![SLASH]) + g);
            lemma_last_slash_append(d + seq![SLASH], g);
            assert((d + seq![SLASH]).last() == SLASH);
            assert(last_slash(d + seq![SLASH]) == d.len());
            assert(s.last() == SLASH);
            assert(has_autograb(s));
            assert(s.take(d.len() as int) =~= d);
            assert(s.subrange(d.len() as int + 1, s.len() - 1) =~= g);
            if d.len() > 0 {
                assert(s[0] == d[0]);
            } else {
                assert(s[0] == SLASH);
            }
        },
        None => {},
    }
}

/// The item list that re-encodes to the head of a stream is what decoding
/// that stream yields.
proof fn lemma_items_complete(ts: Seq<TokenV>, s: Seq<ItemV>)
    requires
        2 * s.len() <= ts.len(),
        forall|j: int| 0 <= j < s.len() ==> item_canonical(#[trigger] s[j]),
        datas(ts.take(2 * s.len() as int)) == items_tokens(s),
    ensures
        spec_parse_items(ts, s.len()) == Ok::<(Seq<ItemV>, Seq<TokenV>), ParseError>(
            (s, ts.skip(2 * s.len() as int)),
        ),
    decreases s.len(),
{
    let f = |i: ItemV| item_tokens(i);
    if s.len() == 0 {
        assert(ts.skip(0) =~= ts);
        assert(s =~= Seq::<ItemV>::empty());
    } else {
        assert(s.map_values(f)[0] == f(s[0]));
        assert(s.map_values(f).drop_first() =~= s.drop_first().map_values(f));
        assert(items_tokens(s) == f(s[0]) + items_tokens(s.drop_first()));
        lemma_flat_map_len(s.drop_first(), f, 2);
        assert(datas(ts.take(2 * s.len() as int))[0] == tok_data(ts[0]));
        assert(tok_data(ts[0]) == TokenData::Str(item_str(s[0])));
        assert(datas(ts.take(2 * s.len() as int))[1] == tok_data(ts[1]));
        assert(tok_data(ts[1]) == TokenData::Int(s[0].location));
        assert(ts.drop_first()[0] == ts[1]);
        lemma_item_of_str(s[0]);
        let r = ts.skip(2);
        assert(ts.drop_first().drop_first() =~= r);
        assert forall|i: int|
            0 <= i < 2 * (s.len() - 1) implies tok_data(#[trigger] r.take(2 * (s.len() - 1))[i])
            == items_tokens(s.drop_first())[i] by {
            assert(r.take(2 * (s.len() - 1))[i] == ts[i + 2]);
            assert(datas(ts.take(2 * s.len() as int))[i + 2] == tok_data(ts[i + 2]));
            assert((f(s[0]) + items_tokens(s.drop_first()))[i + 2] == items_tokens(
                s.drop_first(),
            )[i]);
        }
        assert(datas(r.take(2 * (s.len() - 1))) =~= items_tokens(s.drop_first()));
        lemma_items_complete(r, s.drop_first());
        assert(r.skip(2 * (s.len() - 1)) =~= ts.skip(2 * s.len() as int));
        assert(seq![s[0]] + s.drop_first() =~= s);
    }
}

/// An action with its comment removed, as it stands before the comment
/// block is read.
pub open spec fn strip_comment(a: ActionV) -> ActionV {
    ActionV { comment: None, ..a }
}

/// A comment exactly as the decoder produces it: never empty, since an
/// empty stored comment becomes "no comment".
pub open spec fn comment_canonical(a: ActionV) -> bool {
    match a.comment {
        Some(c) => c.len() > 0,
        None => true,
    }
}

/// The comment block that re-encodes to the head of a stream fills the
/// bare actions back into the commented ones.
proof fn lemma_comments_complete(ts: Seq<TokenV>, s: Seq<ActionV>)
    requires
        s.len() <= ts.len(),
        forall|j: int| 0 <= j < s.len() ==> comment_canonical(#[trigger] s[j]),
        datas(ts.take(s.len() as int)) == comments_tokens(s),
    ensures
        spec_parse_comments(ts, s.map_values(|a: ActionV| strip_comment(a))) == Ok::<
            (Seq<ActionV>, Seq<TokenV>),
            ParseError,
        >((s, ts.skip(s.len() as int))),
    decreases s.len(),
{
    let f = |a: ActionV| seq![TokenData::Str(comment_str(a.comment))];
    let g = |a: ActionV| strip_comment(a);
    let bare = s.map_values(g);
    if s.len() == 0 {
        assert(ts.skip(0) =~= ts);
        assert(bare =~= Seq::<ActionV>::empty());
        assert(s =~= Seq::<ActionV>::empty());
    } else {
        assert(s.map_values(f)[0] == f(s[0]));
        assert(s.map_values(f).drop_first() =~= s.drop_first().map_values(f));
        assert(comments_tokens(s) == f(s[0]) + comments_tokens(s.drop_first()));
        lemma_flat_map_len(s.drop_first(), f, 1);
        assert(datas(ts.take(s.len() as int))[0] == tok_data(ts[0]));
        assert(tok_data(ts[0]) == TokenData::Str(comment_str(s[0].comment)));
        assert(bare.len() == s.len());
        assert(bare[0] == strip_comment(s[0]));
        assert(spec_next_str(ts) == Ok::<(Seq<u8>, Seq<TokenV>), ParseError>(
            (comment_str(s[0].comment), ts.drop_first()),
        ));
        let r = ts.skip(1);
        assert(ts.drop_first() =~= r);
        assert forall|i: int|
            0 <= i < s.len() - 1 implies tok_data(#[trigger] r.take(s.len() - 1)[i])
            == comments_tokens(s.drop_first())[i] by {
            assert(r.take(s.len() - 1)[i] == ts[i + 1]);
            assert(datas(ts.take(s.len() as int))[i + 1] == tok_data(ts[i + 1]));
            assert((f(s[0]) + comments_tokens(s.drop_first()))[i + 1] == comments_tokens(
                s.drop_first(),
            )[i]);
        }
        assert(datas(r.take(s.len() - 1)) =~= comments_tokens(s.drop_first()));
        lemma_comments_complete(r, s.drop_first());
        assert(bare.drop_first() =~= s.drop_first().map_values(g));
        assert(set_comment(bare[0], comment_str(s[0].comment)) == s[0]);
        assert(r.skip(s.len() - 1) =~= ts.skip(s.len() as int));
        assert(seq![s[0]] + s.drop_first() =~= s);
    }
}

/// Splits a stream's known token-data prefix into its first section and
/// the rest.
proof fn lemma_peel(ts: Seq<TokenV>, x: Seq<TokenData>, y: Seq<TokenData>)
    requires
        x.len() + y.len() <= ts.len(),
        datas(ts.take(x.len() + y.len() as int)) == x + y,
    ensures
        datas(ts.take(x.len() as int)) == x,
        datas(ts.skip(x.len() as int).take(y.len() as int)) == y,
        ts.skip(x.len() as int).len() >= y.len(),
{
    assert forall|i: int| 0 <= i < x.len() implies tok_data(#[trigger] ts[i]) == x[i] by {
        assert(datas(ts.take(x.len() + y.len() as int))[i] == tok_data(ts[i]));
        assert((x + y)[i] == x[i]);
    }
    assert(datas(ts.take(x.len() as int)) =~= x);
    assert forall|i: int|
        0 <= i < y.len() implies tok_data(#[trigger] ts.skip(x.len() as int)[i]) == y[i] by {
        assert(ts.skip(x.len() as int)[i] == ts[i + x.len()]);
        assert(datas(ts.take(x.len() + y.len() as int))[i + x.len()] == tok_data(ts[i + x.len()]));
        assert((x + y)[i + x.len()] == y[i]);
    }
    assert(datas(ts.skip(x.len() as int).take(y.len() as int)) =~= y);
}

/// A game exactly as the decoder produces it: encodable, each header count
/// naming its section's true length, and every entity in the decoder's
/// image.
pub open spec fn game_canonical(g: GameV) -> bool {
    &&& game_encodable(g)
    &&& count_of(g.header.num_actions) == g.actions.len()
    &&& count_of(g.header.num_words) == g.verbs.len()
    &&& count_of(g.header.num_rooms) == g.rooms.len()
    &&& count_of(g.header.num_messages) == g.messages.len()
    &&& count_of(g.header.num_items) == g.items.len()
    &&& (forall|i: int|
        0 <= i < g.actions.len() ==> action_canonical(#[trigger] g.actions[i])
            && comment_canonical(g.actions[i]))
    &&& (forall|i: int| 0 <= i < g.verbs.len() ==> word_canonical(#[trigger] g.verbs[i]))
    &&& (forall|i: int| 0 <= i < g.nouns.len() ==> word_canonical(#[trigger] g.nouns[i]))
    &&& (forall|i: int| 0 <= i < g.rooms.len() ==> room_canonical(#[trigger] g.rooms[i]))
    &&& (forall|i: int| 0 <= i < g.items.len() ==> item_canonical(#[trigger] g.items[i]))
}

/// The decoder is complete: a stream that begins with a canonical game's
/// own token sequence decodes to exactly that game.
#[verifier::rlimit(100)]
pub proof fn lemma_game_complete(ts: Seq<TokenV>, g: GameV)
    requires
        game_canonical(g),
        game_tokens(g).len() <= ts.len(),
        datas(ts.take(game_tokens(g).len() as int)) == game_tokens(g),
    ensures
        spec_parse_game(ts) == Ok::<(GameV, Seq<TokenV>), ParseError>(
            (g, ts.skip(game_tokens(g).len() as int)),
        ),
{
    let fa = |a: ActionV| action_tokens(a);
    let fr = |room: RoomV| room_tokens(room);
    let fm = |m: Seq<u8>| seq![TokenData::Str(m)];
    let fi = |i: ItemV| item_tokens(i);
    let fc = |a: ActionV| seq![TokenData::Str(comment_str(a.comment))];
    let gs = |a: ActionV| strip_comment(a);
    let bare = g.actions.map_values(gs);

    let t1 = header_tokens(g.header);
    let t2 = actions_tokens(g.actions);
    let t3 = words_tokens(g.verbs, g.nouns);
    let t4 = rooms_tokens(g.rooms);
    let t5 = messages_tokens(g.messages);
    let t6 = items_tokens(g.items);
    let t7 = comments_tokens(g.actions);
    let t8 = footer_tokens(g.footer);

    // section lengths
    assert forall|i: int|
        0 <= i < g.actions.len() implies (#[trigger] fa(g.actions[i])).len() == 8 by {}
    lemma_flat_map_len(g.actions, fa, 8);
    let pairs = Seq::new(g.verbs.len(), |i: int| (g.verbs[i], g.nouns[i]));
    let fp = |vn: (WordV, WordV)| word_pair_tokens(vn);
    assert forall|i: int| 0 <= i < pairs.len() implies (#[trigger] fp(pairs[i])).len() == 2 by {}
    lemma_flat_map_len(pairs, fp, 2);
    assert forall|i: int|
        0 <= i < g.rooms.len() implies (#[trigger] fr(g.rooms[i])).len() == 7 by {}
    lemma_flat_map_len(g.rooms, fr, 7);
    assert forall|i: int|
        0 <= i < g.messages.len() implies (#[trigger] fm(g.messages[i])).len() == 1 by {}
    lemma_flat_map_len(g.messages, fm, 1);
    assert forall|i: int|
        0 <= i < g.items.len() implies (#[trigger] fi(g.items[i])).len() == 2 by {}
    lemma_flat_map_len(g.items, fi, 2);
    assert forall|i: int|
        0 <= i < g.actions.len() implies (#[trigger] fc(g.actions[i])).len() == 1 by {}
    lemma_flat_map_len(g.actions, fc, 1);

    // the action table re-encodes the same with or without comments
    assert(g.actions.map_values(fa) =~= bare.map_values(fa));
    assert(t2 == actions_tokens(bare));
    assert forall|j: int|
        0 <= j < bare.len() implies action_canonical(#[trigger] bare[j]) && bare[j].comment
        is None by {
        assert(bare[j] == strip_comment(g.actions[j]));
    }

    // peel the eight sections off the stream one after another
    let rest2 = t2 + (t3 + (t4 + (t5 + (t6 + (t7 + t8)))));
    assert(game_tokens(g) =~= t1 + rest2);
    lemma_peel(ts, t1, rest2);
    assert forall|i: int| 0 <= i < 12 implies tok_data(#[trigger] ts[i]) == t1[i] by {
        assert(datas(ts.take(12))[i] == tok_data(ts[i]));
    }
    lemma_header_complete(ts, g.header);
    let r1 = ts.skip(12);

    let rest3 = t3 + (t4 + (t5 + (t6 + (t7 + t8))));
    lemma_peel(r1, t2, rest3);
    lemma_actions_complete(r1, bare);
    let r2 = r1.skip(8 * bare.len() as int);

    let rest4 = t4 + (t5 + (t6 + (t7 + t8)));
    lemma_peel(r2, t3, rest4);
    lemma_words_complete(r2, g.verbs, g.nouns);
    let r3 = r2.skip(2 * g.verbs.len() as int);

    let rest5 = t5 + (t6 + (t7 + t8));
    lemma_peel(r3, t4, rest5);
    lemma_rooms_complete(r3, g.rooms);
    let r4 = r3.skip(7 * g.rooms.len() as int);

    let rest6 = t6 + (t7 + t8);
    lemma_peel(r4, t5, rest6);
    lemma_messages_complete(r4, g.messages);
    let r5 = r4.skip(g.messages.len() as int);

    let rest7 = t7 + t8;
    lemma_peel(r5, t6, rest7);
    lemma_items_complete(r5, g.items);
    let r6 = r5.skip(2 * g.items.len() as int);

    lemma_peel(r6, t7, t8);
    lemma_comments_complete(r6, g.actions);
    let r7 = r6.skip(g.actions.len() as int);

    assert forall|i: int| 0 <= i < 3 implies tok_data(#[trigger] r7[i]) == t8[i] by {
        assert(datas(r7.take(3))[i] == tok_data(r7[i]));
    }
    lemma_footer_complete(r7, g.footer);
    let r8 = r7.skip(3);

    assert(r8 =~= ts.skip(game_tokens(g).len() as int));
}

/// Decoding inverts encoding: tokenizing a canonical game's rendered bytes
/// succeeds, and decoding those tokens yields exactly the game back, with
/// nothing left over. Together with `write_game`'s contract this says that
/// re-reading whatever the encoder wrote restores the very game it was
/// given.
pub proof fn lemma_encode_then_decode(g: GameV)
    requires
        game_canonical(g),
        clean_tokens(game_tokens(g)),
    ensures
        spec_tokenize(render(game_tokens(g))) matches Ok(ts) && spec_parse_game(ts) == Ok::<
            (GameV, Seq<TokenV>),
            ParseError,
        >((g, Seq::empty())),
{
    lemma_tokenize_render(game_tokens(g));
    if let Ok(ts) = spec_tokenize(render(game_tokens(g))) {
        assert(datas(ts) == game_tokens(g));
        assert(ts.len() == game_tokens(g).len());
        assert(ts.take(game_tokens(g).len() as int) =~= ts);
        lemma_game_complete(ts, g);
        assert(ts.skip(game_tokens(g).len() as int) =~= Seq::<TokenV>::empty());
    }
}

} // verus!
