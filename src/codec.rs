use vstd::prelude::*;

verus! {

/// Ends the position part of a record: `;`.
pub const RECORD_SEPARATOR: u8 = 59;

/// Separates two actions of a record: a space.
pub const ACTION_SEPARATOR: u8 = 32;

/// Ends a line: `\n`.
pub const LINE_END: u8 = 10;

/// The contents of a list of byte strings.
pub open spec fn views(a: Seq<Vec<u8>>) -> Seq<Seq<u8>> {
    a.map_values(|v: Vec<u8>| v@)
}

/// Index of the first `b` in `s` at or after `pos`, or the length of `s`.
pub open spec fn first_from(s: Seq<u8>, pos: int, b: u8) -> int
    decreases s.len() - pos,
{
    if pos < 0 || pos >= s.len() {
        s.len() as int
    } else if s[pos] == b {
        pos
    } else {
        first_from(s, pos + 1, b)
    }
}

/// `b` does not occur in `s`.
pub open spec fn lacks(s: Seq<u8>, b: u8) -> bool {
    forall|k: int| 0 <= k < s.len() ==> s[k] != b
}

/// The actions, separated by single spaces.
pub open spec fn join(a: Seq<Seq<u8>>) -> Seq<u8>
    decreases a.len(),
{
    if a.len() == 0 {
        Seq::empty()
    } else if a.len() == 1 {
        a[0]
    } else {
        a[0] + seq![ACTION_SEPARATOR] + join(a.skip(1))
    }
}

/// The space-separated pieces of `s[pos..]`.
pub open spec fn split_from(s: Seq<u8>, pos: int) -> Seq<Seq<u8>>
    decreases s.len() - pos,
{
    if pos < 0 || pos > s.len() {
        Seq::empty()
    } else {
        let j = first_from(s, pos, ACTION_SEPARATOR);
        if j < pos || j >= s.len() {
            seq![s.subrange(pos, s.len() as int)]
        } else {
            seq![s.subrange(pos, j)] + split_from(s, j + 1)
        }
    }
}

/// A position text that can stand in a record.
pub open spec fn valid_position(e: Seq<u8>) -> bool {
    lacks(e, RECORD_SEPARATOR) && lacks(e, LINE_END)
}

/// An action text that can stand in a record: not empty, and free of the
/// separators.
pub open spec fn valid_action(t: Seq<u8>) -> bool {
    &&& t.len() > 0
    &&& lacks(t, ACTION_SEPARATOR)
    &&& lacks(t, RECORD_SEPARATOR)
    &&& lacks(t, LINE_END)
}

pub open spec fn valid_actions(a: Seq<Seq<u8>>) -> bool {
    forall|k: int| 0 <= k < a.len() ==> #[trigger] valid_action(a[k])
}

/// The record of a window: its starting position, `;`, then its actions
/// separated by spaces.
pub open spec fn encode(e: Seq<u8>, a: Seq<Seq<u8>>) -> Seq<u8> {
    e + seq![RECORD_SEPARATOR] + join(a)
}

/// What a line reads as: the position before its first `;` and the actions
/// after it, or `None` when there is no `;` or a part is malformed.
pub open spec fn decode_spec(line: Seq<u8>) -> Option<(Seq<u8>, Seq<Seq<u8>>)> {
    let i = first_from(line, 0, RECORD_SEPARATOR);
    if i >= line.len() {
        None
    } else {
        let e = line.take(i);
        let a = if i + 1 == line.len() {
            Seq::empty()
        } else {
            split_from(line, i + 1)
        };
        if valid_position(e) && valid_actions(a) {
            Some((e, a))
        } else {
            None
        }
    }
}

/// `first_from` is the first index from `pos` on that holds `b`.
proof fn lemma_first_from(s: Seq<u8>, pos: int, j: int, b: u8)
    requires
        0 <= pos <= j <= s.len(),
        forall|k: int| pos <= k < j ==> s[k] != b,
        j == s.len() || s[j] == b,
    ensures
        first_from(s, pos, b) == j,
    decreases j - pos,
{
    if pos < j {
        lemma_first_from(s, pos + 1, j, b);
    }
}

/// What `first_from` returns lies at or after `pos`, holds `b` unless it is
/// the length, and no `b` comes before it.
proof fn lemma_first_from_props(s: Seq<u8>, pos: int, b: u8)
    requires
        0 <= pos,
    ensures
        pos <= first_from(s, pos, b) || pos > s.len(),
        first_from(s, pos, b) <= s.len(),
        first_from(s, pos, b) < s.len() ==> s[first_from(s, pos, b)] == b,
        forall|k: int| pos <= k < first_from(s, pos, b) ==> s[k] != b,
    decreases s.len() - pos,
{
    if pos < s.len() && s[pos] != b {
        lemma_first_from_props(s, pos + 1, b);
    }
}

/// Splitting the joined actions after any prefix gives them back.
proof fn lemma_split_join(p: Seq<u8>, a: Seq<Seq<u8>>)
    requires
        a.len() > 0,
        valid_actions(a),
    ensures
        split_from(p + join(a), p.len() as int) == a,
    decreases a.len(),
{
    let s = p + join(a);
    let a0 = a[0];
    assert(valid_action(a0));
    if a.len() == 1 {
        lemma_first_from(s, p.len() as int, s.len() as int, ACTION_SEPARATOR);
        assert(s.subrange(p.len() as int, s.len() as int) =~= a0);
        assert(seq![a0] =~= a);
    } else {
        let rest = a.skip(1);
        let q = p + a0 + seq![ACTION_SEPARATOR];
        assert(s =~= q + join(rest));
        let j: int = (p.len() + a0.len()) as int;
        lemma_first_from(s, p.len() as int, j, ACTION_SEPARATOR);
        assert(s.subrange(p.len() as int, j) =~= a0);
        assert forall|k: int| 0 <= k < rest.len() implies #[trigger] valid_action(rest[k]) by {
            assert(rest[k] == a[k + 1]);
        }
        lemma_split_join(q, rest);
        assert(seq![a0] + rest =~= a);
    }
}

/// Adding one action to a non-empty list adds a space and the action.
proof fn lemma_join_push(a: Seq<Seq<u8>>, x: Seq<u8>)
    requires
        a.len() > 0,
    ensures
        join(a.push(x)) == join(a) + seq![ACTION_SEPARATOR] + x,
    decreases a.len(),
{
    let b = a.push(x);
    assert(b[0] == a[0]);
    if a.len() == 1 {
        assert(b.skip(1) =~= seq![x]);
        assert(join(b.skip(1)) == x);
        assert(join(a) == a[0]);
    } else {
        lemma_join_push(a.skip(1), x);
        assert(b.skip(1) =~= a.skip(1).push(x));
        assert(join(b) =~= join(a) + seq![ACTION_SEPARATOR] + x);
    }
}

/// A record decodes to the position and actions it was made from.
pub proof fn lemma_record_round_trip(e: Seq<u8>, a: Seq<Seq<u8>>)
    requires
        valid_position(e),
        valid_actions(a),
    ensures
        decode_spec(encode(e, a)) == Some((e, a)),
{
    let line = encode(e, a);
    lemma_first_from(line, 0, e.len() as int, RECORD_SEPARATOR);
    assert(line.take(e.len() as int) =~= e);
    if a.len() == 0 {
        assert(line.len() == e.len() + 1);
    } else {
        let p = e + seq![RECORD_SEPARATOR];
        assert(line =~= p + join(a));
        lemma_split_join(p, a);
        assert(join(a).len() > 0) by {
            assert(valid_action(a[0]));
            if a.len() > 1 {
                assert((a[0] + seq![ACTION_SEPARATOR] + join(a.skip(1))).len() > 0);
            }
        }
    }
}

/// Index of the first `b` in `s` at or after `pos`, or the length of `s`.
pub fn find_from(s: &Vec<u8>, pos: usize, b: u8) -> (r: usize)
    ensures
        r == first_from(s@, pos as int, b),
{
    if pos >= s.len() {
        return s.len();
    }
    let mut i: usize = pos;
    while i < s.len()
        invariant
            pos <= i <= s@.len(),
            first_from(s@, pos as int, b) == first_from(s@, i as int, b),
        decreases s@.len() - i,
    {
        if s[i] == b {
            return i;
        }
        i = i + 1;
    }
    i
}

/// A copy of `s[lo..hi]`.
fn copy_range(s: &Vec<u8>, lo: usize, hi: usize) -> (r: Vec<u8>)
    requires
        lo <= hi <= s@.len(),
    ensures
        r@ == s@.subrange(lo as int, hi as int),
{
    let mut out: Vec<u8> = Vec::new();
    let mut i: usize = lo;
    while i < hi
        invariant
            lo <= i <= hi,
            hi <= s@.len(),
            out@ == s@.subrange(lo as int, i as int),
        decreases hi - i,
    {
        out.push(s[i]);
        i = i + 1;
        assert(out@ =~= s@.subrange(lo as int, i as int));
    }
    out
}

/// Appends the bytes of `src` to `out`.
fn append_bytes(out: &mut Vec<u8>, src: &Vec<u8>)
    ensures
        final(out)@ == old(out)@ + src@,
{
    let mut i: usize = 0;
    while i < src.len()
        invariant
            i <= src@.len(),
            out@ == old(out)@ + src@.take(i as int),
        decreases src@.len() - i,
    {
        out.push(src[i]);
        i = i + 1;
        assert(out@ =~= old(out)@ + src@.take(i as int));
    }
    assert(src@.take(src@.len() as int) =~= src@);
}

/// Whether `b` does not occur in `s`.
fn lacks_byte(s: &Vec<u8>, b: u8) -> (r: bool)
    ensures
        r == lacks(s@, b),
{
    let i = find_from(s, 0, b);
    proof {
        lemma_first_from_props(s@, 0, b);
    }
    i == s.len()
}

/// Whether `t` can stand as an action in a record.
pub fn is_valid_action(t: &Vec<u8>) -> (r: bool)
    ensures
        r == valid_action(t@),
{
    t.len() > 0 && lacks_byte(t, ACTION_SEPARATOR) && lacks_byte(t, RECORD_SEPARATOR) && lacks_byte(
        t,
        LINE_END,
    )
}

/// Whether `e` can stand as the position of a record.
pub fn is_valid_position(e: &Vec<u8>) -> (r: bool)
    ensures
        r == valid_position(e@),
{
    lacks_byte(e, RECORD_SEPARATOR) && lacks_byte(e, LINE_END)
}

/// The record of a window: `position;action action ...`.
pub fn encode_record(position: &Vec<u8>, actions: &Vec<Vec<u8>>) -> (r: Vec<u8>)
    ensures
        r@ == encode(position@, views(actions@)),
{
    let mut out: Vec<u8> = Vec::new();
    append_bytes(&mut out, position);
    out.push(RECORD_SEPARATOR);
    let ghost head = out@;
    let mut k: usize = 0;
    while k < actions.len()
        invariant
            k <= actions@.len(),
            head == position@ + seq![RECORD_SEPARATOR],
            out@ == head + join(views(actions@).take(k as int)),
        decreases actions@.len() - k,
    {
        let ghost done = views(actions@).take(k as int);
        if k > 0 {
            out.push(ACTION_SEPARATOR);
        }
        append_bytes(&mut out, &actions[k]);
        proof {
            assert(views(actions@).take(k + 1) =~= done.push(actions@[k as int]@));
            if k > 0 {
                lemma_join_push(done, actions@[k as int]@);
            } else {
                assert(done.push(actions@[k as int]@).len() == 1);
            }
            assert(out@ =~= head + join(views(actions@).take(k + 1)));
        }
        k = k + 1;
    }
    assert(views(actions@).take(actions@.len() as int) =~= views(actions@));
    out
}

/// Reads a record back: `None` when the line has no `;`, the position holds
/// a line end, or an action is empty or holds a separator.
pub fn decode_record(line: &Vec<u8>) -> (r: Option<(Vec<u8>, Vec<Vec<u8>>)>)
    ensures
        r matches Some((e, a)) ==> decode_spec(line@) == Some((e@, views(a@))),
        r is None ==> decode_spec(line@) is None,
{
    let i = find_from(line, 0, RECORD_SEPARATOR);
    proof {
        lemma_first_from_props(line@, 0, RECORD_SEPARATOR);
    }
    if i >= line.len() {
        return None;
    }
    let position = copy_range(line, 0, i);
    assert(position@ =~= line@.take(i as int));
    if !is_valid_position(&position) {
        return None;
    }
    let mut actions: Vec<Vec<u8>> = Vec::new();
    if i + 1 == line.len() {
        assert(views(actions@) =~= Seq::<Seq<u8>>::empty());
        return Some((position, actions));
    }
    let ghost all = split_from(line@, i + 1);
    let mut pos: usize = i + 1;
    let mut finished: bool = false;
    while !finished
        invariant
            i + 1 <= pos <= line@.len(),
            i + 1 < line@.len(),
            i == first_from(line@, 0, RECORD_SEPARATOR),
            position@ == line@.take(i as int),
            valid_position(position@),
            all == split_from(line@, (i + 1) as int),
            finished ==> views(actions@) == all,
            !finished ==> views(actions@) + split_from(line@, pos as int) == all,
            valid_actions(views(actions@)),
        decreases line@.len() - pos + if finished {
            0int
        } else {
            1int
        },
    {
        let j = find_from(line, pos, ACTION_SEPARATOR);
        proof {
            lemma_first_from_props(line@, pos as int, ACTION_SEPARATOR);
        }
        let token = copy_range(line, pos, j);
        let ghost before = views(actions@);
        if !is_valid_action(&token) {
            proof {
                assert(all[before.len() as int] == token@);
                assert(!valid_action(all[before.len() as int]));
                assert(!valid_actions(all));
                assert(i + 1 != line@.len());
                assert(decode_spec(line@) is None);
            }
            return None;
        }
        actions.push(token);
        proof {
            assert(views(actions@) =~= before.push(token@));
            assert forall|k: int| 0 <= k < views(actions@).len() implies #[trigger] valid_action(
                views(actions@)[k],
            ) by {
                if k < before.len() {
                    assert(views(actions@)[k] == before[k]);
                }
            }
        }
        if j >= line.len() {
            finished = true;
            proof {
                assert(split_from(line@, pos as int) =~= seq![token@]);
                assert(before + seq![token@] =~= before.push(token@));
            }
        } else {
            proof {
                assert(split_from(line@, pos as int) == seq![token@] + split_from(line@, j + 1));
                assert(before + (seq![token@] + split_from(line@, j + 1)) =~= before.push(token@)
                    + split_from(line@, j + 1));
            }
            pos = j + 1;
        }
    }
    Some((position, actions))
}

} // verus!

verus! {

/// The text of one game: each action followed by a space, then a line end.
pub open spec fn game_text(game: Seq<Seq<u8>>) -> Seq<u8>
    decreases game.len(),
{
    if game.len() == 0 {
        seq![LINE_END]
    } else {
        game[0] + seq![ACTION_SEPARATOR] + game_text(game.skip(1))
    }
}

/// The texts of `games[i..]`, one after the other.
pub open spec fn games_text(games: Seq<Seq<Seq<u8>>>, i: int) -> Seq<u8>
    decreases games.len() - i,
{
    if i < 0 || i >= games.len() {
        Seq::empty()
    } else {
        game_text(games[i]) + games_text(games, i + 1)
    }
}

/// Text of the first `k` actions of a game, each followed by a space.
proof fn lemma_game_text_prefix(game: Seq<Seq<u8>>, k: int)
    requires
        0 <= k < game.len(),
    ensures
        game_text(game.take(k + 1)).drop_last() == game_text(game.take(k)).drop_last()
            + game[k] + seq![ACTION_SEPARATOR],
    decreases k,
{
    let g1 = game.take(k + 1);
    let g0 = game.take(k);
    if k == 0 {
        assert(g1.skip(1) =~= Seq::<Seq<u8>>::empty());
        assert(game_text(g0) == seq![LINE_END]);
        assert(game_text(g1.skip(1)) == seq![LINE_END]);
        assert(g1[0] == game[0]);
        assert(game_text(g1) =~= game[0] + seq![ACTION_SEPARATOR] + seq![LINE_END]);
        assert(game_text(g1).drop_last() =~= game[0] + seq![ACTION_SEPARATOR]);
        assert(game_text(g0).drop_last() =~= Seq::<u8>::empty());
    } else {
        lemma_game_text_prefix(game.skip(1), k - 1);
        assert(g1.skip(1) =~= game.skip(1).take(k));
        assert(g0.skip(1) =~= game.skip(1).take(k - 1));
        assert(g1[0] == game[0]);
        assert(g0[0] == game[0]);
        assert(game.skip(1)[k - 1] == game[k]);
        let t1 = game_text(game.skip(1).take(k));
        let t0 = game_text(game.skip(1).take(k - 1));
        assert(t1.len() > 0 && t0.len() > 0) by {
            lemma_game_text_nonempty(game.skip(1).take(k));
            lemma_game_text_nonempty(game.skip(1).take(k - 1));
        }
        assert(game_text(g1).drop_last() =~= game[0] + seq![ACTION_SEPARATOR] + t1.drop_last());
        assert(game_text(g0).drop_last() =~= game[0] + seq![ACTION_SEPARATOR] + t0.drop_last());
    }
}

proof fn lemma_game_text_nonempty(game: Seq<Seq<u8>>)
    ensures
        game_text(game).len() > 0,
        game_text(game).last() == LINE_END,
    decreases game.len(),
{
    if game.len() > 0 {
        lemma_game_text_nonempty(game.skip(1));
    }
}

/// The texts of finished games, one line each, with each action followed by
/// a space. Every game is emptied; the list keeps its length.
pub fn full_games_to_text(full_games: &mut Vec<Vec<Vec<u8>>>) -> (r: Vec<u8>)
    ensures
        r@ == games_text(old(full_games)@.map_values(|g: Vec<Vec<u8>>| views(g@)), 0),
        final(full_games)@.len() == old(full_games)@.len(),
        forall|i: int| 0 <= i < final(full_games)@.len() ==> (#[trigger] final(full_games)@[i])@.len() == 0,
{
    let ghost games = old(full_games)@.map_values(|g: Vec<Vec<u8>>| views(g@));
    let mut out: Vec<u8> = Vec::new();
    let mut i: usize = 0;
    while i < full_games.len()
        invariant
            i <= full_games@.len(),
            full_games@.len() == old(full_games)@.len(),
            games == old(full_games)@.map_values(|g: Vec<Vec<u8>>| views(g@)),
            forall|j: int| 0 <= j < i ==> (#[trigger] full_games@[j])@.len() == 0,
            forall|j: int| i <= j < full_games@.len() ==> #[trigger] full_games@[j] == old(full_games)@[j],
            out@ + games_text(games, i as int) == games_text(games, 0),
        decreases full_games@.len() - i,
    {
        let mut game: Vec<Vec<u8>> = Vec::new();
        std::mem::swap(&mut game, &mut full_games[i]);
        assert(views(game@) == games[i as int]);
        let ghost g = views(game@);
        let ghost start = out@;
        let mut k: usize = 0;
        while k < game.len()
            invariant
                k <= game@.len(),
                g == views(game@),
                start + game_text(g) + games_text(games, i + 1) == games_text(games, 0),
                out@ == start + game_text(g.take(k as int)).drop_last(),
            decreases game@.len() - k,
        {
            append_bytes(&mut out, &game[k]);
            out.push(ACTION_SEPARATOR);
            proof {
                lemma_game_text_prefix(g, k as int);
                assert(out@ =~= start + game_text(g.take(k + 1)).drop_last());
            }
            k = k + 1;
        }
        out.push(LINE_END);
        proof {
            assert(g.take(k as int) =~= g);
            lemma_game_text_nonempty(g);
            assert(game_text(g).drop_last().push(LINE_END) =~= game_text(g));
            assert(out@ =~= start + game_text(g));
            assert(out@ + games_text(games, i + 1) =~= start + game_text(g) + games_text(games, i + 1));
        }
        i = i + 1;
    }
    proof {
        assert(games_text(games, i as int) =~= Seq::<u8>::empty());
        assert(out@ + games_text(games, i as int) =~= out@);
    }
    out
}

} // verus!
