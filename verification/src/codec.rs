//! The store's file format, and its round-trip guarantee.
//!
//! A store is serialized as a flat sequence of 64-bit words (signed fields
//! in zigzag form), and the words as little-endian bytes.  Decoding is the
//! exact inverse of encoding: reloading an encoded store reproduces every
//! table entry.

use vstd::prelude::*;

use crate::state::key_eq;
use crate::state::Fake;
use crate::state::MapState;
use crate::state::MyState;
use crate::snake::Action;
use crate::table::ActionValues;
use crate::table::Table;
use crate::table::VALUE_LIMIT_CENTI;

verus! {

/// The zigzag form of a signed value: non-negative values map to even
/// numbers, negative values to odd ones, so that every `i64` fits in a
/// `u64`.
pub open spec fn zigzag(x: int) -> int {
    if x >= 0 {
        2 * x
    } else {
        -2 * x - 1
    }
}

/// The inverse of `zigzag`.
pub open spec fn unzigzag(z: int) -> int {
    if z % 2 == 0 {
        z / 2
    } else {
        -((z + 1) / 2)
    }
}

/// Zigzag maps the `i64` range onto the `u64` range and decodes back.
pub proof fn lemma_zigzag_roundtrip(x: int)
    requires
        -0x8000_0000_0000_0000 <= x < 0x8000_0000_0000_0000,
    ensures
        0 <= zigzag(x) < 0x1_0000_0000_0000_0000,
        unzigzag(zigzag(x)) == x,
{
    if x >= 0 {
        assert(zigzag(x) == 2 * x);
        assert((2 * x) % 2 == 0 && (2 * x) / 2 == x) by {
            vstd::arithmetic::div_mod::lemma_fundamental_div_mod_converse(2 * x, 2, x, 0);
        }
    } else {
        assert(zigzag(x) == -2 * x - 1);
        assert((-2 * x - 1) % 2 == 1 && (-2 * x - 1) / 2 == -x - 1) by {
            vstd::arithmetic::div_mod::lemma_fundamental_div_mod_converse(-2 * x - 1, 2, -x - 1, 1);
        }
    }
}

/// Encodes a signed value in zigzag form.
pub fn zigzag_encode(x: i64) -> (z: u64)
    ensures
        z as int == zigzag(x as int),
{
    proof {
        lemma_zigzag_roundtrip(x as int);
    }
    if x >= 0 {
        (x as u64) * 2
    } else {
        let m: u64 = (-(x + 1)) as u64;
        2 * m + 1
    }
}

/// Decodes a zigzag-form value.
pub fn zigzag_decode(z: u64) -> (x: i64)
    ensures
        x as int == unzigzag(z as int),
{
    proof {
        vstd::arithmetic::div_mod::lemma_fundamental_div_mod(z as int, 2);
    }
    if z % 2 == 0 {
        (z / 2) as i64
    } else {
        let h: u64 = z / 2;
        proof {
            assert(-((z as int + 1) / 2) == -(h as int) - 1) by {
                vstd::arithmetic::div_mod::lemma_fundamental_div_mod_converse(
                    z as int + 1,
                    2,
                    h as int + 1,
                    0,
                );
            }
        }
        -(h as i64) - 1
    }
}

/// Whether the word sequence carries exactly `what` starting at `pos`.
pub open spec fn has_seq_at(ws: Seq<u64>, pos: int, what: Seq<u64>) -> bool {
    &&& 0 <= pos
    &&& pos + what.len() <= ws.len()
    &&& ws.subrange(pos, pos + what.len()) == what
}

proof fn lemma_has_at_index(ws: Seq<u64>, pos: int, what: Seq<u64>, i: int)
    requires
        has_seq_at(ws, pos, what),
        0 <= i < what.len(),
    ensures
        ws[pos + i] == what[i],
{
    assert(ws.subrange(pos, pos + what.len())[i] == ws[pos + i]);
}

proof fn lemma_has_at_split(ws: Seq<u64>, pos: int, a: Seq<u64>, b: Seq<u64>)
    requires
        has_seq_at(ws, pos, a + b),
    ensures
        has_seq_at(ws, pos, a),
        has_seq_at(ws, pos + a.len(), b),
{
    assert(ws.subrange(pos, pos + a.len()) =~= a) by {
        assert forall|i: int| 0 <= i < a.len() implies ws.subrange(pos, pos + a.len())[i] == a[i] by {
            assert(ws.subrange(pos, pos + (a + b).len())[i] == (a + b)[i]);
        }
    }
    assert(ws.subrange(pos + a.len(), pos + a.len() + b.len()) =~= b) by {
        assert forall|i: int|
            0 <= i < b.len() implies ws.subrange(pos + a.len(), pos + a.len() + b.len())[i] == b[i] by {
            assert(ws.subrange(pos, pos + (a + b).len())[a.len() + i] == (a + b)[a.len() + i]);
        }
    }
}

/// The word of one window cell.
pub open spec fn cell_word(c: MapState) -> u64 {
    match c {
        MapState::Empty => 0,
        MapState::Death => 1,
    }
}

/// The cell of one word, if the word is a valid cell.
pub open spec fn word_cell(w: u64) -> Option<MapState> {
    if w == 0 {
        Some(MapState::Empty)
    } else if w == 1 {
        Some(MapState::Death)
    } else {
        None
    }
}

/// One window row's cells, one word each.
pub open spec fn enc_cells(row: Seq<MapState>) -> Seq<u64> {
    Seq::new(row.len(), |i: int| cell_word(row[i]))
}

/// One window row: its length, then its cells.
pub open spec fn enc_row(row: Seq<MapState>) -> Seq<u64> {
    seq![row.len() as u64] + enc_cells(row)
}

/// A window's rows, in order.
pub open spec fn enc_rows(rows: Seq<Seq<MapState>>) -> Seq<u64>
    decreases rows.len(),
{
    if rows.len() == 0 {
        Seq::empty()
    } else {
        enc_row(rows.first()) + enc_rows(rows.drop_first())
    }
}

/// One observation: row count, rows, then apple direction and reward in
/// zigzag form.
pub open spec fn enc_state(window: Seq<Seq<MapState>>, apple: (int, int), reward: int) -> Seq<u64> {
    seq![window.len() as u64] + enc_rows(window) + seq![
        zigzag(apple.0) as u64,
        zigzag(apple.1) as u64,
        zigzag(reward) as u64,
    ]
}

/// One optional action value: a presence tag, then the value (zero when
/// absent).
pub open spec fn enc_opt_value(v: Option<i64>) -> Seq<u64> {
    match v {
        None => seq![0u64, 0u64],
        Some(x) => seq![1u64, zigzag(x as int) as u64],
    }
}

/// One slot: its four optional action values, in the fixed action order.
pub open spec fn enc_av(av: ActionValues) -> Seq<u64> {
    enc_opt_value(av.x_pos) + enc_opt_value(av.x_neg) + enc_opt_value(av.y_pos) + enc_opt_value(
        av.y_neg,
    )
}

/// One table entry: the observation, then its slot.
pub open spec fn enc_entry(e: (MyState, ActionValues)) -> Seq<u64> {
    enc_state(
        e.0.map_view(),
        (e.0.curr_apple.0 as int, e.0.curr_apple.1 as int),
        e.0.reward.spec_value() as int,
    ) + enc_av(e.1)
}

/// A table's entries, in order.
pub open spec fn enc_entries(s: Seq<(MyState, ActionValues)>) -> Seq<u64>
    decreases s.len(),
{
    if s.len() == 0 {
        Seq::empty()
    } else {
        enc_entry(s.first()) + enc_entries(s.drop_first())
    }
}

/// One table: its entry count, then its entries.
pub open spec fn enc_table(t: Table) -> Seq<u64> {
    seq![t.spec_entries().len() as u64] + enc_entries(t.spec_entries())
}

/// A store's tables: each one's radius, then the table.
pub open spec fn enc_store_tables(s: Seq<(u32, Table)>) -> Seq<u64>
    decreases s.len(),
{
    if s.len() == 0 {
        Seq::empty()
    } else {
        (seq![s.first().0 as u64] + enc_table(s.first().1)) + enc_store_tables(s.drop_first())
    }
}

/// A whole store: its table count, then its tables.
pub open spec fn enc_store(s: Seq<(u32, Table)>) -> Seq<u64> {
    seq![s.len() as u64] + enc_store_tables(s)
}

/// What a parsed observation denotes: window rows, apple direction,
/// reward.
pub type StateAbs = (Seq<Seq<MapState>>, (int, int), int);

/// What a parsed table entry denotes.
pub type EntryAbs = (StateAbs, ActionValues);

/// The denotation of an observation held in an exec table entry.
pub open spec fn state_abs_of(st: MyState) -> StateAbs {
    (st.map_view(), (st.curr_apple.0 as int, st.curr_apple.1 as int), st.reward.spec_value() as int)
}

/// Parses `n` window cells.
pub open spec fn parse_cells(ws: Seq<u64>, pos: int, n: nat) -> Option<(Seq<MapState>, int)>
    decreases n,
{
    if n == 0 {
        Some((Seq::empty(), pos))
    } else if 0 <= pos < ws.len() {
        match word_cell(ws[pos]) {
            None => None,
            Some(c) => match parse_cells(ws, pos + 1, (n - 1) as nat) {
                None => None,
                Some((rest, end)) => Some((seq![c] + rest, end)),
            },
        }
    } else {
        None
    }
}

/// Parses one window row: a length, then that many cells.
pub open spec fn parse_row(ws: Seq<u64>, pos: int) -> Option<(Seq<MapState>, int)> {
    if 0 <= pos < ws.len() {
        parse_cells(ws, pos + 1, ws[pos] as nat)
    } else {
        None
    }
}

/// Parses `n` window rows.
pub open spec fn parse_rows(ws: Seq<u64>, pos: int, n: nat) -> Option<(Seq<Seq<MapState>>, int)>
    decreases n,
{
    if n == 0 {
        Some((Seq::empty(), pos))
    } else {
        match parse_row(ws, pos) {
            None => None,
            Some((row, p1)) => match parse_rows(ws, p1, (n - 1) as nat) {
                None => None,
                Some((rest, end)) => Some((seq![row] + rest, end)),
            },
        }
    }
}

/// Parses one observation.
pub open spec fn parse_state(ws: Seq<u64>, pos: int) -> Option<(StateAbs, int)> {
    if 0 <= pos < ws.len() {
        match parse_rows(ws, pos + 1, ws[pos] as nat) {
            None => None,
            Some((window, p1)) => if p1 + 3 <= ws.len() {
                let ax = unzigzag(ws[p1] as int);
                let ay = unzigzag(ws[p1 + 1] as int);
                let rw = unzigzag(ws[p1 + 2] as int);
                if -0x8000_0000 <= ax < 0x8000_0000 && -0x8000_0000 <= ay < 0x8000_0000 {
                    Some(((window, (ax, ay), rw), p1 + 3))
                } else {
                    None
                }
            } else {
                None
            },
        }
    } else {
        None
    }
}

/// Parses one optional action value.
pub open spec fn parse_opt_value(ws: Seq<u64>, pos: int) -> Option<(Option<i64>, int)> {
    if 0 <= pos && pos + 2 <= ws.len() {
        if ws[pos] == 0 {
            if ws[pos + 1] == 0 {
                Some((None, pos + 2))
            } else {
                None
            }
        } else if ws[pos] == 1 {
            Some((Some(unzigzag(ws[pos + 1] as int) as i64), pos + 2))
        } else {
            None
        }
    } else {
        None
    }
}

/// Parses one slot.
pub open spec fn parse_av(ws: Seq<u64>, pos: int) -> Option<(ActionValues, int)> {
    match parse_opt_value(ws, pos) {
        None => None,
        Some((xp, p1)) => match parse_opt_value(ws, p1) {
            None => None,
            Some((xn, p2)) => match parse_opt_value(ws, p2) {
                None => None,
                Some((yp, p3)) => match parse_opt_value(ws, p3) {
                    None => None,
                    Some((yn, p4)) => Some(
                        (ActionValues { x_pos: xp, x_neg: xn, y_pos: yp, y_neg: yn }, p4),
                    ),
                },
            },
        },
    }
}

/// Parses one table entry.
pub open spec fn parse_entry(ws: Seq<u64>, pos: int) -> Option<(EntryAbs, int)> {
    match parse_state(ws, pos) {
        None => None,
        Some((st, p1)) => match parse_av(ws, p1) {
            None => None,
            Some((av, p2)) => Some(((st, av), p2)),
        },
    }
}

/// Parses `n` table entries.
pub open spec fn parse_entries(ws: Seq<u64>, pos: int, n: nat) -> Option<(Seq<EntryAbs>, int)>
    decreases n,
{
    if n == 0 {
        Some((Seq::empty(), pos))
    } else {
        match parse_entry(ws, pos) {
            None => None,
            Some((e, p1)) => match parse_entries(ws, p1, (n - 1) as nat) {
                None => None,
                Some((rest, end)) => Some((seq![e] + rest, end)),
            },
        }
    }
}

/// Parses one table: an entry count, then that many entries.
pub open spec fn parse_table(ws: Seq<u64>, pos: int) -> Option<(Seq<EntryAbs>, int)> {
    if 0 <= pos < ws.len() {
        parse_entries(ws, pos + 1, ws[pos] as nat)
    } else {
        None
    }
}

/// Parses `n` radius-keyed tables.
pub open spec fn parse_store_tables(ws: Seq<u64>, pos: int, n: nat) -> Option<
    (Seq<(int, Seq<EntryAbs>)>, int),
>
    decreases n,
{
    if n == 0 {
        Some((Seq::empty(), pos))
    } else if 0 <= pos < ws.len() && ws[pos] < 0x1_0000_0000 {
        let radius = ws[pos] as int;
        match parse_table(ws, pos + 1) {
            None => None,
            Some((t, p1)) => match parse_store_tables(ws, p1, (n - 1) as nat) {
                None => None,
                Some((rest, end)) => Some((seq![(radius, t)] + rest, end)),
            },
        }
    } else {
        None
    }
}

/// Parses a whole store; the words must be consumed exactly.
pub open spec fn parse_store(ws: Seq<u64>) -> Option<Seq<(int, Seq<EntryAbs>)>> {
    if ws.len() == 0 {
        None
    } else {
        match parse_store_tables(ws, 1, ws[0] as nat) {
            None => None,
            Some((tables, end)) => if end == ws.len() {
                Some(tables)
            } else {
                None
            },
        }
    }
}

/// The denotation of one exec table entry.
pub open spec fn entry_abs_of(e: (MyState, ActionValues)) -> EntryAbs {
    (state_abs_of(e.0), e.1)
}

/// An observation's window dimensions always fit the word range: the
/// window is held in vectors.
proof fn lemma_state_encodable(st: MyState)
    ensures
        st.map_view().len() < 0x1_0000_0000_0000_0000,
        forall|i: int|
            0 <= i < st.map_view().len() ==> (#[trigger] st.map_view()[i]).len()
                < 0x1_0000_0000_0000_0000,
{
    assert(vstd::std_specs::vec::spec_vec_len(&st.map) == st.map@.len());
    assert forall|i: int|
        0 <= i < st.map_view().len() implies (#[trigger] st.map_view()[i]).len()
        < 0x1_0000_0000_0000_0000 by {
        assert(vstd::std_specs::vec::spec_vec_len(&st.map@[i]) == st.map@[i]@.len());
        assert(st.map_view()[i] == st.map@[i]@);
    }
}

proof fn lemma_parse_cells_inv(ws: Seq<u64>, pos: int, row: Seq<MapState>)
    requires
        has_seq_at(ws, pos, enc_cells(row)),
    ensures
        parse_cells(ws, pos, row.len()) == Some((row, pos + row.len())),
    decreases row.len(),
{
    if row.len() > 0 {
        lemma_has_at_index(ws, pos, enc_cells(row), 0);
        assert(ws[pos] == cell_word(row[0]));
        assert(word_cell(ws[pos]) == Some(row[0]));
        let tail = row.drop_first();
        assert(enc_cells(row) =~= seq![cell_word(row[0])] + enc_cells(tail));
        lemma_has_at_split(ws, pos, seq![cell_word(row[0])], enc_cells(tail));
        lemma_parse_cells_inv(ws, pos + 1, tail);
        assert(seq![row[0]] + tail =~= row);
    } else {
        assert(parse_cells(ws, pos, 0) == Some((Seq::<MapState>::empty(), pos)));
        assert(row =~= Seq::<MapState>::empty());
    }
}

proof fn lemma_parse_row_inv(ws: Seq<u64>, pos: int, row: Seq<MapState>)
    requires
        has_seq_at(ws, pos, enc_row(row)),
        row.len() < 0x1_0000_0000_0000_0000,
    ensures
        parse_row(ws, pos) == Some((row, pos + enc_row(row).len())),
{
    lemma_has_at_split(ws, pos, seq![row.len() as u64], enc_cells(row));
    lemma_has_at_index(ws, pos, seq![row.len() as u64], 0);
    assert(ws[pos] == row.len() as u64);
    assert(ws[pos] as nat == row.len());
    lemma_parse_cells_inv(ws, pos + 1, row);
}

proof fn lemma_parse_rows_inv(ws: Seq<u64>, pos: int, rows: Seq<Seq<MapState>>)
    requires
        has_seq_at(ws, pos, enc_rows(rows)),
        forall|i: int|
            0 <= i < rows.len() ==> (#[trigger] rows[i]).len() < 0x1_0000_0000_0000_0000,
    ensures
        parse_rows(ws, pos, rows.len()) == Some((rows, pos + enc_rows(rows).len())),
    decreases rows.len(),
{
    if rows.len() > 0 {
        let first = rows.first();
        let rest = rows.drop_first();
        assert(enc_rows(rows) == enc_row(first) + enc_rows(rest));
        lemma_has_at_split(ws, pos, enc_row(first), enc_rows(rest));
        assert(first == rows[0]);
        lemma_parse_row_inv(ws, pos, first);
        assert(forall|i: int|
            0 <= i < rest.len() ==> (#[trigger] rest[i]).len() < 0x1_0000_0000_0000_0000) by {
            assert(forall|i: int| 0 <= i < rest.len() ==> rest[i] == rows[i + 1]);
        }
        lemma_parse_rows_inv(ws, pos + enc_row(first).len(), rest);
        assert(seq![first] + rest =~= rows);
    } else {
        assert(rows =~= Seq::<Seq<MapState>>::empty());
    }
}

proof fn lemma_parse_state_inv(ws: Seq<u64>, pos: int, window: Seq<Seq<MapState>>, apple: (int, int), reward: int)
    requires
        has_seq_at(ws, pos, enc_state(window, apple, reward)),
        window.len() < 0x1_0000_0000_0000_0000,
        forall|i: int|
            0 <= i < window.len() ==> (#[trigger] window[i]).len() < 0x1_0000_0000_0000_0000,
        -0x8000_0000 <= apple.0 < 0x8000_0000,
        -0x8000_0000 <= apple.1 < 0x8000_0000,
        -0x8000_0000_0000_0000 <= reward < 0x8000_0000_0000_0000,
    ensures
        parse_state(ws, pos) == Some((((window, apple, reward)), pos + enc_state(window, apple, reward).len())),
{
    let tail = seq![zigzag(apple.0) as u64, zigzag(apple.1) as u64, zigzag(reward) as u64];
    assert(enc_state(window, apple, reward) =~= seq![window.len() as u64] + (enc_rows(window)
        + tail));
    lemma_has_at_split(ws, pos, seq![window.len() as u64], enc_rows(window) + tail);
    lemma_has_at_index(ws, pos, seq![window.len() as u64], 0);
    assert(ws[pos] == window.len() as u64);
    assert(ws[pos] as nat == window.len());
    lemma_has_at_split(ws, pos + 1, enc_rows(window), tail);
    lemma_parse_rows_inv(ws, pos + 1, window);
    let p1 = pos + 1 + enc_rows(window).len();
    lemma_has_at_index(ws, p1, tail, 0);
    lemma_has_at_index(ws, p1, tail, 1);
    lemma_has_at_index(ws, p1, tail, 2);
    lemma_zigzag_roundtrip(apple.0);
    lemma_zigzag_roundtrip(apple.1);
    lemma_zigzag_roundtrip(reward);
    assert(ws[p1] as int == zigzag(apple.0));
    assert(ws[p1 + 1] as int == zigzag(apple.1));
    assert(ws[p1 + 2] as int == zigzag(reward));
    assert(unzigzag(ws[p1] as int) == apple.0);
    assert(unzigzag(ws[p1 + 1] as int) == apple.1);
    assert(unzigzag(ws[p1 + 2] as int) == reward);
}

proof fn lemma_parse_opt_value_inv(ws: Seq<u64>, pos: int, v: Option<i64>)
    requires
        has_seq_at(ws, pos, enc_opt_value(v)),
    ensures
        parse_opt_value(ws, pos) == Some((v, pos + 2)),
{
    lemma_has_at_index(ws, pos, enc_opt_value(v), 0);
    lemma_has_at_index(ws, pos, enc_opt_value(v), 1);
    match v {
        None => {},
        Some(x) => {
            lemma_zigzag_roundtrip(x as int);
            assert(ws[pos + 1] as int == zigzag(x as int));
            assert(unzigzag(ws[pos + 1] as int) == x as int);
        },
    }
}

proof fn lemma_parse_av_inv(ws: Seq<u64>, pos: int, av: ActionValues)
    requires
        has_seq_at(ws, pos, enc_av(av)),
    ensures
        parse_av(ws, pos) == Some((av, pos + 8)),
{
    assert(enc_av(av) =~= enc_opt_value(av.x_pos) + (enc_opt_value(av.x_neg) + (enc_opt_value(
        av.y_pos,
    ) + enc_opt_value(av.y_neg))));
    lemma_has_at_split(
        ws,
        pos,
        enc_opt_value(av.x_pos),
        enc_opt_value(av.x_neg) + (enc_opt_value(av.y_pos) + enc_opt_value(av.y_neg)),
    );
    lemma_has_at_split(
        ws,
        pos + 2,
        enc_opt_value(av.x_neg),
        enc_opt_value(av.y_pos) + enc_opt_value(av.y_neg),
    );
    lemma_has_at_split(ws, pos + 4, enc_opt_value(av.y_pos), enc_opt_value(av.y_neg));
    lemma_parse_opt_value_inv(ws, pos, av.x_pos);
    lemma_parse_opt_value_inv(ws, pos + 2, av.x_neg);
    lemma_parse_opt_value_inv(ws, pos + 4, av.y_pos);
    lemma_parse_opt_value_inv(ws, pos + 6, av.y_neg);
}

proof fn lemma_parse_entry_inv(ws: Seq<u64>, pos: int, e: (MyState, ActionValues))
    requires
        has_seq_at(ws, pos, enc_entry(e)),
    ensures
        parse_entry(ws, pos) == Some((entry_abs_of(e), pos + enc_entry(e).len())),
{
    lemma_state_encodable(e.0);
    let st_words = enc_state(
        e.0.map_view(),
        (e.0.curr_apple.0 as int, e.0.curr_apple.1 as int),
        e.0.reward.spec_value() as int,
    );
    lemma_has_at_split(ws, pos, st_words, enc_av(e.1));
    lemma_parse_state_inv(
        ws,
        pos,
        e.0.map_view(),
        (e.0.curr_apple.0 as int, e.0.curr_apple.1 as int),
        e.0.reward.spec_value() as int,
    );
    lemma_parse_av_inv(ws, pos + st_words.len(), e.1);
}

/// The denotation of a table's exec entry list.
pub open spec fn entries_abs_of(s: Seq<(MyState, ActionValues)>) -> Seq<EntryAbs> {
    Seq::new(s.len(), |j: int| entry_abs_of(s[j]))
}

proof fn lemma_parse_entries_inv(ws: Seq<u64>, pos: int, s: Seq<(MyState, ActionValues)>)
    requires
        has_seq_at(ws, pos, enc_entries(s)),
    ensures
        parse_entries(ws, pos, s.len()) == Some((entries_abs_of(s), pos + enc_entries(s).len())),
    decreases s.len(),
{
    if s.len() > 0 {
        let first = s.first();
        let rest = s.drop_first();
        assert(enc_entries(s) == enc_entry(first) + enc_entries(rest));
        lemma_has_at_split(ws, pos, enc_entry(first), enc_entries(rest));
        lemma_parse_entry_inv(ws, pos, first);
        lemma_parse_entries_inv(ws, pos + enc_entry(first).len(), rest);
        assert(seq![entry_abs_of(first)] + entries_abs_of(rest) =~= entries_abs_of(s));
    } else {
        assert(entries_abs_of(s) =~= Seq::<EntryAbs>::empty());
    }
}

proof fn lemma_parse_table_inv(ws: Seq<u64>, pos: int, t: Table)
    requires
        has_seq_at(ws, pos, enc_table(t)),
    ensures
        parse_table(ws, pos) == Some(
            (entries_abs_of(t.spec_entries()), pos + enc_table(t).len()),
        ),
{
    crate::table::lemma_table_len_bound(t);
    lemma_has_at_split(ws, pos, seq![t.spec_entries().len() as u64], enc_entries(t.spec_entries()));
    lemma_has_at_index(ws, pos, seq![t.spec_entries().len() as u64], 0);
    assert(ws[pos] as nat == t.spec_entries().len());
    lemma_parse_entries_inv(ws, pos + 1, t.spec_entries());
}

/// The denotation of a store's exec table list.
pub open spec fn tables_abs_of(s: Seq<(u32, Table)>) -> Seq<(int, Seq<EntryAbs>)> {
    Seq::new(s.len(), |i: int| (s[i].0 as int, entries_abs_of(s[i].1.spec_entries())))
}

proof fn lemma_parse_store_tables_inv(ws: Seq<u64>, pos: int, s: Seq<(u32, Table)>)
    requires
        has_seq_at(ws, pos, enc_store_tables(s)),
    ensures
        parse_store_tables(ws, pos, s.len()) == Some(
            (tables_abs_of(s), pos + enc_store_tables(s).len()),
        ),
    decreases s.len(),
{
    if s.len() > 0 {
        let first = s.first();
        let rest = s.drop_first();
        assert(enc_store_tables(s) == (seq![first.0 as u64] + enc_table(first.1))
            + enc_store_tables(rest));
        assert(enc_store_tables(s) =~= seq![first.0 as u64] + (enc_table(first.1)
            + enc_store_tables(rest)));
        lemma_has_at_split(ws, pos, seq![first.0 as u64], enc_table(first.1) + enc_store_tables(rest));
        lemma_has_at_index(ws, pos, seq![first.0 as u64], 0);
        assert(ws[pos] == first.0 as u64);
        assert(ws[pos] < 0x1_0000_0000);
        lemma_has_at_split(ws, pos + 1, enc_table(first.1), enc_store_tables(rest));
        lemma_parse_table_inv(ws, pos + 1, first.1);
        lemma_parse_store_tables_inv(ws, pos + 1 + enc_table(first.1).len(), rest);
        assert(seq![(first.0 as int, entries_abs_of(first.1.spec_entries()))] + tables_abs_of(rest)
            =~= tables_abs_of(s));
    } else {
        assert(tables_abs_of(s) =~= Seq::<(int, Seq<EntryAbs>)>::empty());
    }
}

/// Round-trip: parsing the encoding of any store yields exactly that
/// store's tables, entry for entry.
pub proof fn lemma_parse_store_of_encode(s: Seq<(u32, Table)>)
    requires
        s.len() < 0x1_0000_0000_0000_0000,
    ensures
        parse_store(enc_store(s)) == Some(tables_abs_of(s)),
{
    let ws = enc_store(s);
    assert(ws[0] == s.len() as u64);
    assert(ws[0] as nat == s.len());
    assert(has_seq_at(ws, 1, enc_store_tables(s))) by {
        assert(ws.subrange(1, 1 + enc_store_tables(s).len() as int) =~= enc_store_tables(s));
    }
    lemma_parse_store_tables_inv(ws, 1, s);
    assert(1 + enc_store_tables(s).len() == ws.len());
}

proof fn lemma_enc_rows_skip(rows: Seq<Seq<MapState>>, i: int)
    requires
        0 <= i < rows.len(),
    ensures
        enc_rows(rows.skip(i)) == enc_row(rows[i]) + enc_rows(rows.skip(i + 1)),
{
    assert(rows.skip(i).len() > 0);
    assert(rows.skip(i).first() == rows[i]);
    assert(rows.skip(i).drop_first() =~= rows.skip(i + 1));
}

proof fn lemma_enc_entries_skip(s: Seq<(MyState, ActionValues)>, i: int)
    requires
        0 <= i < s.len(),
    ensures
        enc_entries(s.skip(i)) == enc_entry(s[i]) + enc_entries(s.skip(i + 1)),
{
    assert(s.skip(i).len() > 0);
    assert(s.skip(i).first() == s[i]);
    assert(s.skip(i).drop_first() =~= s.skip(i + 1));
}

proof fn lemma_enc_store_tables_skip(s: Seq<(u32, Table)>, i: int)
    requires
        0 <= i < s.len(),
    ensures
        enc_store_tables(s.skip(i)) == (seq![s[i].0 as u64] + enc_table(s[i].1))
            + enc_store_tables(s.skip(i + 1)),
{
    assert(s.skip(i).len() > 0);
    assert(s.skip(i).first() == s[i]);
    assert(s.skip(i).drop_first() =~= s.skip(i + 1));
}

/// Appends one window row's encoding.
fn encode_row_into(out: &mut Vec<u64>, row: &Vec<MapState>)
    ensures
        final(out)@ == old(out)@ + enc_row(row@),
{
    out.push(row.len() as u64);
    let mut j: usize = 0;
    while j < row.len()
        invariant
            j <= row@.len(),
            out@ == old(out)@ + seq![row@.len() as u64] + enc_cells(row@).take(j as int),
        decreases row@.len() - j,
    {
        let w: u64 = match row[j] {
            MapState::Empty => 0,
            MapState::Death => 1,
        };
        proof {
            assert(w == cell_word(row@[j as int]));
            assert(enc_cells(row@).take(j + 1) =~= enc_cells(row@).take(j as int).push(w));
        }
        out.push(w);
        j = j + 1;
    }
    proof {
        assert(enc_cells(row@).take(row@.len() as int) =~= enc_cells(row@));
        assert(old(out)@ + seq![row@.len() as u64] + enc_cells(row@) =~= old(out)@ + enc_row(row@));
    }
}

/// Appends one observation's encoding.
fn encode_state_into(out: &mut Vec<u64>, st: &MyState)
    ensures
        final(out)@ == old(out)@ + enc_state(
            st.map_view(),
            (st.curr_apple.0 as int, st.curr_apple.1 as int),
            st.reward.spec_value() as int,
        ),
{
    let ghost rows = st.map_view();
    out.push(st.map.len() as u64);
    proof {
        assert(rows.skip(0) =~= rows);
        assert(out@ + enc_rows(rows) =~= old(out)@ + seq![rows.len() as u64] + enc_rows(rows));
    }
    let mut i: usize = 0;
    while i < st.map.len()
        invariant
            i <= st.map@.len(),
            rows == st.map_view(),
            out@ + enc_rows(rows.skip(i as int)) == old(out)@ + seq![rows.len() as u64]
                + enc_rows(rows),
        decreases st.map@.len() - i,
    {
        let ghost pre = out@;
        encode_row_into(out, &st.map[i]);
        proof {
            lemma_enc_rows_skip(rows, i as int);
            assert(st.map@[i as int]@ == rows[i as int]);
            assert(out@ == pre + enc_row(rows[i as int]));
            assert(out@ + enc_rows(rows.skip(i + 1)) =~= pre + enc_rows(rows.skip(i as int)));
        }
        i = i + 1;
    }
    proof {
        assert(rows.skip(rows.len() as int) =~= Seq::<Seq<MapState>>::empty());
        assert(out@ =~= old(out)@ + seq![rows.len() as u64] + enc_rows(rows));
    }
    let vx: u64 = zigzag_encode(st.curr_apple.0 as i64);
    let vy: u64 = zigzag_encode(st.curr_apple.1 as i64);
    let vrz: u64 = zigzag_encode(st.reward.value());
    out.push(vx);
    out.push(vy);
    out.push(vrz);
    proof {
        assert(out@ =~= old(out)@ + enc_state(
            st.map_view(),
            (st.curr_apple.0 as int, st.curr_apple.1 as int),
            st.reward.spec_value() as int,
        ));
    }
}

/// Appends one optional action value's encoding.
fn encode_opt_into(out: &mut Vec<u64>, v: &Option<i64>)
    ensures
        final(out)@ == old(out)@ + enc_opt_value(*v),
{
    match v {
        None => {
            out.push(0);
            out.push(0);
        },
        Some(x) => {
            out.push(1);
            let z: u64 = zigzag_encode(*x);
            out.push(z);
        },
    }
    proof {
        assert(out@ =~= old(out)@ + enc_opt_value(*v));
    }
}

/// Appends one slot's encoding.
fn encode_av_into(out: &mut Vec<u64>, av: &ActionValues)
    ensures
        final(out)@ == old(out)@ + enc_av(*av),
{
    encode_opt_into(out, &av.x_pos);
    encode_opt_into(out, &av.x_neg);
    encode_opt_into(out, &av.y_pos);
    encode_opt_into(out, &av.y_neg);
    proof {
        assert(out@ =~= old(out)@ + enc_av(*av));
    }
}

/// Appends one table's encoding.
fn encode_table_into(out: &mut Vec<u64>, t: &Table)
    ensures
        final(out)@ == old(out)@ + enc_table(*t),
{
    let ghost entries = t.spec_entries();
    out.push(t.len() as u64);
    proof {
        assert(entries.skip(0) =~= entries);
        assert(out@ + enc_entries(entries) =~= old(out)@ + seq![entries.len() as u64] + enc_entries(
            entries,
        ));
    }
    let n: usize = t.len();
    let mut i: usize = 0;
    while i < n
        invariant
            i <= entries.len(),
            n == entries.len(),
            entries == t.spec_entries(),
            out@ + enc_entries(entries.skip(i as int)) == old(out)@ + seq![entries.len() as u64]
                + enc_entries(entries),
        decreases n - i,
    {
        let ghost pre = out@;
        encode_state_into(out, t.entry_state(i));
        let av: ActionValues = t.entry_values(i);
        encode_av_into(out, &av);
        proof {
            lemma_enc_entries_skip(entries, i as int);
            assert(out@ == pre + enc_entry(entries[i as int]));
            assert(out@ + enc_entries(entries.skip(i + 1)) =~= pre + enc_entries(
                entries.skip(i as int),
            ));
        }
        i = i + 1;
    }
    proof {
        assert(entries.skip(entries.len() as int) =~= Seq::<(MyState, ActionValues)>::empty());
        assert(out@ =~= old(out)@ + enc_table(*t));
    }
}

impl crate::store::Store {
    /// Serializes the store as a flat word sequence.
    pub fn to_words(&self) -> (out: Vec<u64>)
        ensures
            out@ == enc_store(self.spec_tables()),
    {
        let ghost tables = self.spec_tables();
        let mut out: Vec<u64> = Vec::new();
        out.push(self.len() as u64);
        proof {
            assert(tables.skip(0) =~= tables);
            assert(out@ + enc_store_tables(tables) =~= seq![tables.len() as u64]
                + enc_store_tables(tables));
        }
        let n: usize = self.len();
        let mut i: usize = 0;
        while i < n
            invariant
                i <= tables.len(),
                n == tables.len(),
                tables == self.spec_tables(),
                out@ + enc_store_tables(tables.skip(i as int)) == seq![tables.len() as u64]
                    + enc_store_tables(tables),
            decreases n - i,
        {
            let ghost pre = out@;
            out.push(self.radius_at(i) as u64);
            encode_table_into(&mut out, self.table_at(i));
            proof {
                lemma_enc_store_tables_skip(tables, i as int);
                assert(out@ =~= pre + (seq![tables[i as int].0 as u64] + enc_table(
                    tables[i as int].1,
                )));
                assert(out@ + enc_store_tables(tables.skip(i + 1)) =~= pre + enc_store_tables(
                    tables.skip(i as int),
                ));
            }
            i = i + 1;
        }
        proof {
            assert(tables.skip(tables.len() as int) =~= Seq::<(u32, Table)>::empty());
            assert(out@ =~= enc_store(tables));
        }
        out
    }
}

/// Parses `n` window cells.
fn parse_cells_exec(ws: &Vec<u64>, pos: usize, n: u64) -> (r: Option<(Vec<MapState>, usize)>)
    ensures
        match parse_cells(ws@, pos as int, n as nat) {
            None => r is None,
            Some((cells, end)) => r matches Some((v, p)) && v@ == cells && p == end,
        },
    decreases n,
{
    if n == 0 {
        return Some((Vec::new(), pos));
    }
    if pos >= ws.len() {
        return None;
    }
    let w: u64 = ws[pos];
    let c: MapState;
    if w == 0 {
        c = MapState::Empty;
    } else if w == 1 {
        c = MapState::Death;
    } else {
        return None;
    }
    match parse_cells_exec(ws, pos + 1, n - 1) {
        None => None,
        Some((mut rest, end)) => {
            let ghost tail = rest@;
            rest.insert(0, c);
            proof {
                assert(rest@ =~= seq![c] + tail);
            }
            Some((rest, end))
        },
    }
}

/// Parses one window row.
fn parse_row_exec(ws: &Vec<u64>, pos: usize) -> (r: Option<(Vec<MapState>, usize)>)
    ensures
        match parse_row(ws@, pos as int) {
            None => r is None,
            Some((cells, end)) => r matches Some((v, p)) && v@ == cells && p == end,
        },
{
    if pos >= ws.len() {
        return None;
    }
    let n: u64 = ws[pos];
    parse_cells_exec(ws, pos + 1, n)
}

/// Parses `n` window rows.
fn parse_rows_exec(ws: &Vec<u64>, pos: usize, n: u64) -> (r: Option<(Vec<Vec<MapState>>, usize)>)
    ensures
        match parse_rows(ws@, pos as int, n as nat) {
            None => r is None,
            Some((rows, end)) => r matches Some((v, p)) && v@.map_values(
                |row: Vec<MapState>| row@,
            ) == rows && p == end,
        },
    decreases n,
{
    if n == 0 {
        let out: Vec<Vec<MapState>> = Vec::new();
        proof {
            assert(out@.map_values(|row: Vec<MapState>| row@) =~= Seq::<Seq<MapState>>::empty());
        }
        return Some((out, pos));
    }
    match parse_row_exec(ws, pos) {
        None => None,
        Some((row, p1)) => match parse_rows_exec(ws, p1, n - 1) {
            None => None,
            Some((mut rest, end)) => {
                let ghost tail = rest@;
                rest.insert(0, row);
                proof {
                    assert(rest@ == tail.insert(0, rest@[0]));
                    assert(rest@.map_values(|r2: Vec<MapState>| r2@) =~= seq![rest@[0]@]
                        + tail.map_values(|r2: Vec<MapState>| r2@));
                }
                Some((rest, end))
            },
        },
    }
}

/// Parses one observation.
fn parse_state_exec(ws: &Vec<u64>, pos: usize) -> (r: Option<(MyState, usize)>)
    ensures
        match parse_state(ws@, pos as int) {
            None => r is None,
            Some((abs, end)) => r matches Some((st, p)) && state_abs_of(st) == abs && p == end,
        },
{
    if pos >= ws.len() {
        return None;
    }
    let nrows: u64 = ws[pos];
    match parse_rows_exec(ws, pos + 1, nrows) {
        None => None,
        Some((map, p1)) => {
            if p1 >= ws.len() || ws.len() - p1 < 3 {
                return None;
            }
            let ax: i64 = zigzag_decode(ws[p1]);
            let ay: i64 = zigzag_decode(ws[p1 + 1]);
            let rw: i64 = zigzag_decode(ws[p1 + 2]);
            if !(-0x8000_0000i64 <= ax && ax < 0x8000_0000i64) {
                return None;
            }
            if !(-0x8000_0000i64 <= ay && ay < 0x8000_0000i64) {
                return None;
            }
            let st = MyState { map, curr_apple: (ax as i32, ay as i32), reward: Fake::Val(rw) };
            Some((st, p1 + 3))
        },
    }
}

/// Parses one optional action value.
fn parse_opt_exec(ws: &Vec<u64>, pos: usize) -> (r: Option<(Option<i64>, usize)>)
    ensures
        match parse_opt_value(ws@, pos as int) {
            None => r is None,
            Some((v, end)) => r matches Some((o, p)) && o == v && p == end,
        },
{
    if pos >= ws.len() || ws.len() - pos < 2 {
        return None;
    }
    let tag: u64 = ws[pos];
    if tag == 0 {
        if ws[pos + 1] == 0 {
            Some((None, pos + 2))
        } else {
            None
        }
    } else if tag == 1 {
        let v: i64 = zigzag_decode(ws[pos + 1]);
        Some((Some(v), pos + 2))
    } else {
        None
    }
}

/// Parses one slot.
fn parse_av_exec(ws: &Vec<u64>, pos: usize) -> (r: Option<(ActionValues, usize)>)
    ensures
        match parse_av(ws@, pos as int) {
            None => r is None,
            Some((av, end)) => r matches Some((v, p)) && v == av && p == end,
        },
{
    match parse_opt_exec(ws, pos) {
        None => None,
        Some((xp, p1)) => match parse_opt_exec(ws, p1) {
            None => None,
            Some((xn, p2)) => match parse_opt_exec(ws, p2) {
                None => None,
                Some((yp, p3)) => match parse_opt_exec(ws, p3) {
                    None => None,
                    Some((yn, p4)) => Some(
                        (ActionValues { x_pos: xp, x_neg: xn, y_pos: yp, y_neg: yn }, p4),
                    ),
                },
            },
        },
    }
}

/// Parses `n` table entries.
fn parse_entries_exec(ws: &Vec<u64>, pos: usize, n: u64) -> (r: Option<
    (Vec<(MyState, ActionValues)>, usize),
>)
    ensures
        match parse_entries(ws@, pos as int, n as nat) {
            None => r is None,
            Some((abs, end)) => r matches Some((v, p)) && entries_abs_of(v@) == abs && p == end,
        },
    decreases n,
{
    if n == 0 {
        let out: Vec<(MyState, ActionValues)> = Vec::new();
        proof {
            assert(entries_abs_of(out@) =~= Seq::<EntryAbs>::empty());
        }
        return Some((out, pos));
    }
    match parse_state_exec(ws, pos) {
        None => None,
        Some((st, p1)) => match parse_av_exec(ws, p1) {
            None => None,
            Some((av, p2)) => match parse_entries_exec(ws, p2, n - 1) {
                None => None,
                Some((mut rest, end)) => {
                    let ghost tail = rest@;
                    rest.insert(0, (st, av));
                    proof {
                        assert(rest@ == tail.insert(0, rest@[0]));
                        assert(entries_abs_of(rest@) =~= seq![entry_abs_of(rest@[0])]
                            + entries_abs_of(tail));
                    }
                    Some((rest, end))
                },
            },
        },
    }
}

/// Parses one table's entry list.
fn parse_table_exec(ws: &Vec<u64>, pos: usize) -> (r: Option<(Vec<(MyState, ActionValues)>, usize)>)
    ensures
        match parse_table(ws@, pos as int) {
            None => r is None,
            Some((abs, end)) => r matches Some((v, p)) && entries_abs_of(v@) == abs && p == end,
        },
{
    if pos >= ws.len() {
        return None;
    }
    let n: u64 = ws[pos];
    parse_entries_exec(ws, pos + 1, n)
}

/// The denotation of a parsed, not yet validated table list.
pub open spec fn raw_abs(s: Seq<(u32, Vec<(MyState, ActionValues)>)>) -> Seq<(int, Seq<EntryAbs>)> {
    Seq::new(s.len(), |i: int| (s[i].0 as int, entries_abs_of(s[i].1@)))
}

/// Parses `n` radius-keyed tables.
fn parse_store_tables_exec(ws: &Vec<u64>, pos: usize, n: u64) -> (r: Option<
    (Vec<(u32, Vec<(MyState, ActionValues)>)>, usize),
>)
    ensures
        match parse_store_tables(ws@, pos as int, n as nat) {
            None => r is None,
            Some((abs, end)) => r matches Some((v, p)) && raw_abs(v@) == abs && p == end,
        },
    decreases n,
{
    if n == 0 {
        let out: Vec<(u32, Vec<(MyState, ActionValues)>)> = Vec::new();
        proof {
            assert(raw_abs(out@) =~= Seq::<(int, Seq<EntryAbs>)>::empty());
        }
        return Some((out, pos));
    }
    if pos >= ws.len() {
        return None;
    }
    let radius_word: u64 = ws[pos];
    if radius_word >= 0x1_0000_0000 {
        return None;
    }
    let radius: u32 = radius_word as u32;
    match parse_table_exec(ws, pos + 1) {
        None => None,
        Some((t, p1)) => match parse_store_tables_exec(ws, p1, n - 1) {
            None => None,
            Some((mut rest, end)) => {
                let ghost tail = rest@;
                rest.insert(0, (radius, t));
                proof {
                    assert(rest@ == tail.insert(0, rest@[0]));
                    assert(raw_abs(rest@) =~= seq![
                        (rest@[0].0 as int, entries_abs_of(rest@[0].1@)),
                    ] + raw_abs(tail));
                }
                Some((rest, end))
            },
        },
    }
}

/// The table-slot key of a parsed entry: window plus apple direction.
pub open spec fn abs_key(e: EntryAbs) -> crate::table::ObsKey {
    (e.0.0, e.0.1)
}

/// A parsed table is acceptable: pairwise distinct keys and every recorded
/// value within the saturation limit.
pub open spec fn table_abs_valid(t: Seq<EntryAbs>) -> bool {
    &&& forall|i: int, j: int|
        0 <= i < j < t.len() ==> abs_key(#[trigger] t[i]) != abs_key(#[trigger] t[j])
    &&& forall|i: int| 0 <= i < t.len() ==> (#[trigger] t[i]).1.bounded()
}

/// A parsed store is acceptable: pairwise distinct radii, each table
/// acceptable.
pub open spec fn store_abs_valid(s: Seq<(int, Seq<EntryAbs>)>) -> bool {
    &&& forall|i: int, j: int| 0 <= i < j < s.len() ==> (#[trigger] s[i]).0 != (#[trigger] s[j]).0
    &&& forall|i: int| 0 <= i < s.len() ==> table_abs_valid((#[trigger] s[i]).1)
}

/// Checks that every recorded value of a slot stays within the saturation
/// limit.
fn check_av_bounded(av: &ActionValues) -> (r: bool)
    ensures
        r == av.bounded(),
{
    let limit: i64 = crate::table::VALUE_LIMIT_CENTI;
    let mut ok: bool = true;
    match av.x_pos {
        Some(v) => {
            ok = ok && -limit <= v && v <= limit;
        },
        None => {},
    }
    match av.x_neg {
        Some(v) => {
            ok = ok && -limit <= v && v <= limit;
        },
        None => {},
    }
    match av.y_pos {
        Some(v) => {
            ok = ok && -limit <= v && v <= limit;
        },
        None => {},
    }
    match av.y_neg {
        Some(v) => {
            ok = ok && -limit <= v && v <= limit;
        },
        None => {},
    }
    proof {
        if ok {
            assert forall|a: Action| #[trigger] av.spec_get(a) matches Some(v) ==>
                -VALUE_LIMIT_CENTI <= v <= VALUE_LIMIT_CENTI by {
                match a {
                    Action::XPos => {},
                    Action::XNeg => {},
                    Action::YPos => {},
                    Action::YNeg => {},
                }
            }
        } else {
            assert(!av.bounded()) by {
                if av.bounded() {
                    assert(av.spec_get(Action::XPos) == av.x_pos);
                    assert(av.spec_get(Action::XNeg) == av.x_neg);
                    assert(av.spec_get(Action::YPos) == av.y_pos);
                    assert(av.spec_get(Action::YNeg) == av.y_neg);
                }
            }
        }
    }
    ok
}

/// Checks that a parsed entry list has pairwise distinct keys and bounded
/// values.
fn check_entries(entries: &Vec<(MyState, ActionValues)>) -> (r: bool)
    ensures
        r == table_abs_valid(entries_abs_of(entries@)),
{
    let ghost abs = entries_abs_of(entries@);
    let mut i: usize = 0;
    while i < entries.len()
        invariant
            i <= entries@.len(),
            abs == entries_abs_of(entries@),
            forall|a: int, b: int|
                0 <= a < b < i ==> abs_key(#[trigger] abs[a]) != abs_key(#[trigger] abs[b]),
            forall|a: int| 0 <= a < i ==> (#[trigger] abs[a]).1.bounded(),
        decreases entries@.len() - i,
    {
        if !check_av_bounded(&entries[i].1) {
            proof {
                assert(abs[i as int].1 == entries@[i as int].1);
            }
            return false;
        }
        let mut j: usize = 0;
        while j < i
            invariant
                j <= i,
                i < entries@.len(),
                abs == entries_abs_of(entries@),
                forall|b: int| 0 <= b < j ==> abs_key(#[trigger] abs[b]) != abs_key(abs[i as int]),
            decreases i - j,
        {
            if key_eq(&entries[j].0, &entries[i].0) {
                proof {
                    assert(abs_key(abs[j as int]) == entries@[j as int].0.key_view());
                    assert(abs_key(abs[i as int]) == entries@[i as int].0.key_view());
                }
                return false;
            }
            proof {
                assert(abs_key(abs[j as int]) == entries@[j as int].0.key_view());
                assert(abs_key(abs[i as int]) == entries@[i as int].0.key_view());
            }
            j = j + 1;
        }
        proof {
            assert(abs[i as int].1 == entries@[i as int].1);
        }
        i = i + 1;
    }
    true
}

impl crate::store::Store {
    /// Deserializes a store from a flat word sequence.  Fails on malformed
    /// input, a duplicate observation key or radius, or an out-of-range
    /// value; a decoded store is always well-formed and bounded.
    pub fn from_words(ws: &Vec<u64>) -> (r: Option<crate::store::Store>)
        ensures
            match parse_store(ws@) {
                None => r is None,
                Some(abs) => match r {
                    None => !store_abs_valid(abs),
                    Some(st) => {
                        &&& store_abs_valid(abs)
                        &&& st.wf()
                        &&& st.bounded()
                        &&& tables_abs_of(st.spec_tables()) == abs
                    },
                },
            },
    {
        if ws.len() == 0 {
            return None;
        }
        let count: u64 = ws[0];
        match parse_store_tables_exec(ws, 1, count) {
            None => None,
            Some((raw, end)) => {
                if end != ws.len() {
                    return None;
                }
                let ghost abs = raw_abs(raw@);
                let mut i: usize = 0;
                while i < raw.len()
                    invariant
                        i <= raw@.len(),
                        abs == raw_abs(raw@),
                        parse_store(ws@) == Some(abs),
                        forall|a: int, b: int|
                            0 <= a < b < i ==> (#[trigger] raw@[a]).0 != (#[trigger] raw@[b]).0,
                        forall|a: int| 0 <= a < i ==> table_abs_valid((#[trigger] abs[a]).1),
                    decreases raw@.len() - i,
                {
                    if !check_entries(&raw[i].1) {
                        proof {
                            assert(abs[i as int].1 == entries_abs_of(raw@[i as int].1@));
                            assert(!table_abs_valid(abs[i as int].1));
                        }
                        return None;
                    }
                    let mut j: usize = 0;
                    while j < i
                        invariant
                            j <= i,
                            i < raw@.len(),
                            abs == raw_abs(raw@),
                            parse_store(ws@) == Some(abs),
                            forall|b: int| 0 <= b < j ==> (#[trigger] raw@[b]).0 != raw@[i as int].0,
                        decreases i - j,
                    {
                        if raw[j].0 == raw[i].0 {
                            proof {
                                assert(abs[j as int].0 == raw@[j as int].0 as int);
                                assert(abs[i as int].0 == raw@[i as int].0 as int);
                                assert(!store_abs_valid(abs));
                            }
                            return None;
                        }
                        j = j + 1;
                    }
                    proof {
                        assert(abs[i as int].1 == entries_abs_of(raw@[i as int].1@));
                    }
                    i = i + 1;
                }
                proof {
                    assert forall|a: int, b: int| 0 <= a < b < abs.len() implies (#[trigger] abs[a]).0
                        != (#[trigger] abs[b]).0 by {
                        assert(abs[a].0 == raw@[a].0 as int);
                        assert(abs[b].0 == raw@[b].0 as int);
                    }
                    assert(store_abs_valid(abs));
                }
                let mut remaining = raw;
                let ghost orig = remaining@;
                let mut tables: Vec<(u32, Table)> = Vec::new();
                proof {
                    assert(remaining@ =~= orig.skip(0));
                }
                while remaining.len() > 0
                    invariant
                        parse_store(ws@) == Some(abs),
                        tables@.len() <= orig.len(),
                        remaining@ == orig.skip(tables@.len() as int),
                        abs == raw_abs(orig),
                        store_abs_valid(abs),
                        forall|t: int|
                            0 <= t < tables@.len() ==> {
                                &&& (#[trigger] tables@[t]).0 == orig[t].0
                                &&& tables@[t].1.spec_entries() == orig[t].1@
                                &&& tables@[t].1.wf()
                            },
                    decreases remaining@.len(),
                {
                    let ghost k = tables@.len() as int;
                    proof {
                        assert(remaining@[0] == orig[k]);
                        assert(abs[k].1 == entries_abs_of(orig[k].1@));
                        assert(table_abs_valid(abs[k].1));
                        let es = orig[k].1@;
                        assert forall|x: int, y: int|
                            0 <= x < y < es.len() implies (#[trigger] es[x]).0.key_view()
                            != (#[trigger] es[y]).0.key_view() by {
                            assert(abs_key(entries_abs_of(es)[x]) == es[x].0.key_view());
                            assert(abs_key(entries_abs_of(es)[y]) == es[y].0.key_view());
                        }
                    }
                    let head: (u32, Vec<(MyState, ActionValues)>) = remaining.remove(0);
                    let radius: u32 = head.0;
                    let t: Table = Table::from_entries(head.1);
                    tables.push((radius, t));
                    proof {
                        assert(remaining@ =~= orig.skip(tables@.len() as int));
                    }
                }
                let ghost built = tables@;
                proof {
                    assert(built.len() == orig.len());
                    assert forall|a: int, b: int|
                        0 <= a < b < built.len() implies (#[trigger] built[a]).0
                        != (#[trigger] built[b]).0 by {
                        assert(abs[a].0 == orig[a].0 as int);
                        assert(abs[b].0 == orig[b].0 as int);
                    }
                }
                let st = crate::store::Store::from_tables(tables);
                proof {
                    assert forall|t: int|
                        0 <= t < built.len() implies (#[trigger] built[t]).1.bounded() by {
                        assert(abs[t].1 == entries_abs_of(orig[t].1@));
                        assert(table_abs_valid(abs[t].1));
                        assert forall|x: int|
                            0 <= x < built[t].1.spec_entries().len() implies (#[trigger] built[t].1.spec_entries()[x]).1.bounded() by {
                            assert(entries_abs_of(orig[t].1@)[x].1 == orig[t].1@[x].1);
                        }
                        crate::table::lemma_bounded_from_entries(built[t].1);
                    }
                    assert(tables_abs_of(st.spec_tables()) =~= abs) by {
                        assert forall|t: int|
                            0 <= t < built.len() implies tables_abs_of(built)[t] == abs[t] by {
                            assert(entries_abs_of(built[t].1.spec_entries()) == entries_abs_of(
                                orig[t].1@,
                            ));
                        }
                    }
                }
                Some(st)
            },
        }
    }
}

/// Round trip: the encoding of a well-formed bounded store parses back to
/// exactly that store's tables and passes every decode-time validation, so
/// reloading an encoded store reproduces it entry for entry.
pub proof fn lemma_store_round_trip(s: crate::store::Store)
    requires
        s.wf(),
        s.bounded(),
    ensures
        parse_store(enc_store(s.spec_tables())) == Some(tables_abs_of(s.spec_tables())),
        store_abs_valid(tables_abs_of(s.spec_tables())),
{
    crate::store::lemma_store_len_bound(s);
    lemma_parse_store_of_encode(s.spec_tables());
    let abs = tables_abs_of(s.spec_tables());
    assert forall|i: int| 0 <= i < abs.len() implies table_abs_valid((#[trigger] abs[i]).1) by {
        let t = s.spec_tables()[i].1;
        assert(t.wf());
        assert(t.bounded());
        crate::table::lemma_bounded_to_entries(t);
        let ta = abs[i].1;
        assert(ta == entries_abs_of(t.spec_entries()));
        assert forall|x: int, y: int|
            0 <= x < y < ta.len() implies abs_key(#[trigger] ta[x]) != abs_key(#[trigger] ta[y]) by {
            assert(abs_key(ta[x]) == t.spec_entries()[x].0.key_view());
            assert(abs_key(ta[y]) == t.spec_entries()[y].0.key_view());
        }
        assert forall|x: int| 0 <= x < ta.len() implies (#[trigger] ta[x]).1.bounded() by {
            assert(ta[x].1 == t.spec_entries()[x].1);
        }
    }
    assert forall|i: int, j: int|
        0 <= i < j < abs.len() implies (#[trigger] abs[i]).0 != (#[trigger] abs[j]).0 by {
        assert(abs[i].0 == s.spec_tables()[i].0 as int);
        assert(abs[j].0 == s.spec_tables()[j].0 as int);
    }
}

/// The little-endian bytes of one word.
pub open spec fn word_bytes(w: u64) -> Seq<u8> {
    seq![
        (w & 0xff) as u8,
        ((w >> 8) & 0xff) as u8,
        ((w >> 16) & 0xff) as u8,
        ((w >> 24) & 0xff) as u8,
        ((w >> 32) & 0xff) as u8,
        ((w >> 40) & 0xff) as u8,
        ((w >> 48) & 0xff) as u8,
        ((w >> 56) & 0xff) as u8,
    ]
}

/// The little-endian bytes of a word sequence.
pub open spec fn words_bytes(ws: Seq<u64>) -> Seq<u8>
    decreases ws.len(),
{
    if ws.len() == 0 {
        Seq::empty()
    } else {
        word_bytes(ws.first()) + words_bytes(ws.drop_first())
    }
}

/// The word read back from eight little-endian bytes.
pub open spec fn bytes_word(b: Seq<u8>) -> u64 {
    ((b[0] as u64) | ((b[1] as u64) << 8) | ((b[2] as u64) << 16) | ((b[3] as u64) << 24) | (
    (b[4] as u64) << 32) | ((b[5] as u64) << 40) | ((b[6] as u64) << 48) | ((b[7] as u64) << 56))
        as u64
}

/// The words read back from a byte sequence, eight bytes each; fails
/// unless the length is a multiple of eight.
pub open spec fn spec_bytes_words(bs: Seq<u8>) -> Option<Seq<u64>> {
    if bs.len() % 8 == 0 {
        Some(Seq::new(bs.len() / 8, |i: int| bytes_word(bs.subrange(8 * i, 8 * i + 8))))
    } else {
        None
    }
}

proof fn lemma_word_bytes_roundtrip(w: u64)
    ensures
        bytes_word(word_bytes(w)) == w,
{
    let b = word_bytes(w);
    assert(((((w & 0xff) as u8) as u64) | ((((w >> 8) & 0xff) as u8) as u64) << 8 | ((((w >> 16)
        & 0xff) as u8) as u64) << 16 | ((((w >> 24) & 0xff) as u8) as u64) << 24 | ((((w >> 32)
        & 0xff) as u8) as u64) << 32 | ((((w >> 40) & 0xff) as u8) as u64) << 40 | ((((w >> 48)
        & 0xff) as u8) as u64) << 48 | ((((w >> 56) & 0xff) as u8) as u64) << 56) == w)
        by (bit_vector);
}

proof fn lemma_words_bytes_len(ws: Seq<u64>)
    ensures
        words_bytes(ws).len() == 8 * ws.len(),
    decreases ws.len(),
{
    if ws.len() > 0 {
        lemma_words_bytes_len(ws.drop_first());
    }
}

proof fn lemma_words_bytes_index(ws: Seq<u64>, i: int)
    requires
        0 <= i < ws.len(),
    ensures
        words_bytes(ws).len() == 8 * ws.len(),
        words_bytes(ws).subrange(8 * i, 8 * i + 8) == word_bytes(ws[i]),
    decreases i,
{
    lemma_words_bytes_len(ws);
    lemma_words_bytes_len(ws.drop_first());
    if i == 0 {
        assert(words_bytes(ws).subrange(0, 8) =~= word_bytes(ws.first()));
    } else {
        lemma_words_bytes_index(ws.drop_first(), i - 1);
        assert(words_bytes(ws).subrange(8 * i, 8 * i + 8) =~= words_bytes(ws.drop_first()).subrange(
            8 * (i - 1),
            8 * (i - 1) + 8,
        ));
        assert(ws.drop_first()[i - 1] == ws[i]);
    }
}

/// The byte form of any word sequence reads back as exactly that sequence.
pub proof fn lemma_bytes_words_roundtrip(ws: Seq<u64>)
    ensures
        spec_bytes_words(words_bytes(ws)) == Some(ws),
{
    let bs = words_bytes(ws);
    lemma_words_bytes_len(ws);
    assert(bs.len() % 8 == 0 && bs.len() / 8 == ws.len()) by {
        vstd::arithmetic::div_mod::lemma_fundamental_div_mod_converse(
            bs.len() as int,
            8,
            ws.len() as int,
            0,
        );
    }
    let back = Seq::new(bs.len() / 8, |i: int| bytes_word(bs.subrange(8 * i, 8 * i + 8)));
    assert forall|i: int| 0 <= i < ws.len() implies back[i] == ws[i] by {
        lemma_words_bytes_index(ws, i);
        lemma_word_bytes_roundtrip(ws[i]);
    }
    assert(back =~= ws);
}

/// Appends one word's little-endian bytes.
fn push_word_bytes(out: &mut Vec<u8>, w: u64)
    ensures
        final(out)@ == old(out)@ + word_bytes(w),
{
    out.push((w & 0xff) as u8);
    out.push(((w >> 8) & 0xff) as u8);
    out.push(((w >> 16) & 0xff) as u8);
    out.push(((w >> 24) & 0xff) as u8);
    out.push(((w >> 32) & 0xff) as u8);
    out.push(((w >> 40) & 0xff) as u8);
    out.push(((w >> 48) & 0xff) as u8);
    out.push(((w >> 56) & 0xff) as u8);
    proof {
        assert(out@ =~= old(out)@ + word_bytes(w));
    }
}

proof fn lemma_words_bytes_skip(ws: Seq<u64>, i: int)
    requires
        0 <= i < ws.len(),
    ensures
        words_bytes(ws.skip(i)) == word_bytes(ws[i]) + words_bytes(ws.skip(i + 1)),
{
    assert(ws.skip(i).len() > 0);
    assert(ws.skip(i).first() == ws[i]);
    assert(ws.skip(i).drop_first() =~= ws.skip(i + 1));
}

/// Serializes a word sequence as little-endian bytes.
pub fn words_to_bytes(ws: &Vec<u64>) -> (out: Vec<u8>)
    ensures
        out@ == words_bytes(ws@),
{
    let mut out: Vec<u8> = Vec::new();
    proof {
        assert(ws@.skip(0) =~= ws@);
        assert(out@ + words_bytes(ws@) =~= words_bytes(ws@));
    }
    let mut i: usize = 0;
    while i < ws.len()
        invariant
            i <= ws@.len(),
            out@ + words_bytes(ws@.skip(i as int)) == words_bytes(ws@),
        decreases ws@.len() - i,
    {
        let ghost pre = out@;
        push_word_bytes(&mut out, ws[i]);
        proof {
            lemma_words_bytes_skip(ws@, i as int);
            assert(out@ + words_bytes(ws@.skip(i + 1)) =~= pre + words_bytes(ws@.skip(i as int)));
        }
        i = i + 1;
    }
    proof {
        assert(ws@.skip(ws@.len() as int) =~= Seq::<u64>::empty());
        assert(out@ =~= words_bytes(ws@));
    }
    out
}

/// Reads a word sequence back from little-endian bytes.
pub fn bytes_to_words(bs: &Vec<u8>) -> (r: Option<Vec<u64>>)
    ensures
        match spec_bytes_words(bs@) {
            None => r is None,
            Some(ws) => r matches Some(v) && v@ == ws,
        },
{
    if bs.len() % 8 != 0 {
        return None;
    }
    let n: usize = bs.len() / 8;
    let ghost target = spec_bytes_words(bs@)->Some_0;
    proof {
        vstd::arithmetic::div_mod::lemma_fundamental_div_mod(bs@.len() as int, 8);
        assert(target.len() == n);
        assert(vstd::std_specs::vec::spec_vec_len(bs) == bs@.len());
    }
    let mut out: Vec<u64> = Vec::new();
    let mut i: usize = 0;
    while i < n
        invariant
            i <= n,
            n == target.len(),
            8 * n == bs@.len(),
            target == spec_bytes_words(bs@)->Some_0,
            spec_bytes_words(bs@) is Some,
            bs@.len() <= usize::MAX,
            out@.len() == i,
            forall|k: int| 0 <= k < i ==> out@[k] == target[k],
        decreases n - i,
    {
        proof {
            assert(8 * (i as int) + 8 <= bs@.len());
        }
        let base: usize = 8 * i;
        let w: u64 = (bs[base] as u64) | ((bs[base + 1] as u64) << 8) | ((bs[base + 2] as u64)
            << 16) | ((bs[base + 3] as u64) << 24) | ((bs[base + 4] as u64) << 32) | ((bs[base
            + 5] as u64) << 40) | ((bs[base + 6] as u64) << 48) | ((bs[base + 7] as u64) << 56);
        proof {
            let chunk = bs@.subrange(8 * i as int, 8 * i as int + 8);
            assert(chunk[0] == bs@[8 * i as int]);
            assert(chunk[1] == bs@[8 * i as int + 1]);
            assert(chunk[2] == bs@[8 * i as int + 2]);
            assert(chunk[3] == bs@[8 * i as int + 3]);
            assert(chunk[4] == bs@[8 * i as int + 4]);
            assert(chunk[5] == bs@[8 * i as int + 5]);
            assert(chunk[6] == bs@[8 * i as int + 6]);
            assert(chunk[7] == bs@[8 * i as int + 7]);
            assert(w == bytes_word(chunk));
            assert(target[i as int] == bytes_word(chunk));
        }
        out.push(w);
        i = i + 1;
    }
    proof {
        assert(out@ =~= target);
    }
    Some(out)
}

impl crate::store::Store {
    /// Serializes the store for durable storage.
    pub fn to_bytes(&self) -> (out: Vec<u8>)
        ensures
            out@ == words_bytes(enc_store(self.spec_tables())),
    {
        let ws = self.to_words();
        words_to_bytes(&ws)
    }

    /// Loads a store from its serialized form; fails on any malformed or
    /// invalid input, and otherwise yields a well-formed bounded store.
    pub fn from_bytes(bs: &Vec<u8>) -> (r: Option<crate::store::Store>)
        ensures
            match spec_bytes_words(bs@) {
                None => r is None,
                Some(ws) => match parse_store(ws) {
                    None => r is None,
                    Some(abs) => match r {
                        None => !store_abs_valid(abs),
                        Some(st) => {
                            &&& store_abs_valid(abs)
                            &&& st.wf()
                            &&& st.bounded()
                            &&& tables_abs_of(st.spec_tables()) == abs
                        },
                    },
                },
            },
    {
        match bytes_to_words(bs) {
            None => None,
            Some(ws) => crate::store::Store::from_words(&ws),
        }
    }
}

} // verus!
