//! Properties of the parser, stated over the machine that `parser::parse` is
//! proved to compute.
use vstd::prelude::*;

use crate::chars::{is_number_char, is_space_char, valid_number};
use crate::error::SyntaxError;
use crate::machine::{
    add_member, close_array, close_members, finish, gather, has_key,
    initial, lemma_step_progresses, literal_rest, opener, parse_spec, run, step, tail_start, Closing,
    Machine, State, StateWithCursor,
};
use crate::value::{lookup, JsonModel};

verus! {

/// Parsing is a function of the text: equal texts give equal results.
pub proof fn parse_is_deterministic(a: Seq<char>, b: Seq<char>)
    requires
        a == b,
    ensures
        parse_spec(a) == parse_spec(b),
{
}

/// The empty text is rejected as ending too early.
pub proof fn empty_input_ends_too_early()
    ensures
        parse_spec(Seq::empty()) == Err::<JsonModel, SyntaxError>(SyntaxError::EndOfInputTooEarly),
{
}

/// The value of the last pair in `pairs` whose key is `key`.
pub open spec fn last_value(pairs: Seq<(Seq<char>, JsonModel)>, key: Seq<char>) -> Option<
    JsonModel,
>
    decreases pairs.len(),
{
    if pairs.len() == 0 {
        None
    } else {
        match last_value(pairs.drop_first(), key) {
            Some(v) => Some(v),
            None => if pairs[0].0 == key {
                Some(pairs[0].1)
            } else {
                None
            },
        }
    }
}

proof fn lemma_lookup_has_key(ms: Seq<(Seq<char>, JsonModel)>, key: Seq<char>)
    ensures
        lookup(ms, key) is Some <==> has_key(ms, key),
    decreases ms.len(),
{
    if ms.len() > 0 {
        lemma_lookup_has_key(ms.drop_first(), key);
        if has_key(ms, key) && ms[0].0 != key {
            let i = choose|i: int| 0 <= i < ms.len() && #[trigger] ms[i].0 == key;
            assert(ms.drop_first()[i - 1].0 == key);
        }
        if has_key(ms.drop_first(), key) {
            let i = choose|i: int| 0 <= i < ms.len() - 1 && #[trigger] ms.drop_first()[i].0 == key;
            assert(ms[i + 1].0 == key);
        }
    }
}

proof fn lemma_lookup_add(ms: Seq<(Seq<char>, JsonModel)>, k: Seq<char>, v: JsonModel, key: Seq<char>)
    ensures
        lookup(add_member(ms, k, v), key) == if key == k && !has_key(ms, k) {
            Some(v)
        } else {
            lookup(ms, key)
        },
{
    if !has_key(ms, k) {
        assert((seq![(k, v)] + ms).drop_first() =~= ms);
    }
}

/// In an object with a repeated key, the value kept is the one of the key's
/// last occurrence.
pub proof fn last_occurrence_wins(pairs: Seq<(Seq<char>, JsonModel)>, key: Seq<char>)
    ensures
        lookup(gather(pairs), key) == last_value(pairs, key),
    decreases pairs.len(),
{
    if pairs.len() > 0 {
        let rest = gather(pairs.drop_first());
        last_occurrence_wins(pairs.drop_first(), key);
        lemma_lookup_add(rest, pairs[0].0, pairs[0].1, key);
        lemma_lookup_has_key(rest, pairs[0].0);
    }
}

/// The entries of an object have distinct keys.
pub proof fn object_keys_are_unique(pairs: Seq<(Seq<char>, JsonModel)>)
    ensures
        forall|i: int, j: int|
            0 <= i < j < gather(pairs).len() ==> #[trigger] gather(pairs)[i].0 != #[trigger] gather(
                pairs,
            )[j].0,
    decreases pairs.len(),
{
    if pairs.len() > 0 {
        let rest = gather(pairs.drop_first());
        object_keys_are_unique(pairs.drop_first());
        if !has_key(rest, pairs[0].0) {
            let g = gather(pairs);
            assert(g == seq![(pairs[0].0, pairs[0].1)] + rest);
            assert forall|i: int, j: int| 0 <= i < j < g.len() implies #[trigger] g[i].0
                != #[trigger] g[j].0 by {
                if i == 0 {
                    assert(g[j] == rest[j - 1]);
                } else {
                    assert(g[i] == rest[i - 1] && g[j] == rest[j - 1]);
                }
            }
        }
    }
}

/// Closing an array makes its elements the values completed inside it, in
/// the order in which they were completed, that is in source order.
pub proof fn array_keeps_order(m: Machine)
    requires
        m.opens.len() > 0,
        m.opens.last().state == State::ArrayOpen,
        m.values.len() == m.starts.len(),
    ensures
        ({
            let at = tail_start(m.starts, m.opens.last().cursor, m.starts.len() as int);
            close_array(m).values.last() == JsonModel::Array(
                m.values.subrange(at, m.values.len() as int),
            )
        }),
{
}

pub open spec fn shift_open(o: StateWithCursor, k: nat) -> StateWithCursor {
    StateWithCursor { state: o.state, cursor: (o.cursor + k) as usize }
}

/// The same machine over a text that has `k` more characters in front.
pub open spec fn shift(m: Machine, k: nat) -> Machine {
    Machine {
        cursor: (m.cursor + k) as usize,
        opens: m.opens.map_values(|o: StateWithCursor| shift_open(o, k)),
        values: m.values,
        starts: m.starts.map_values(|s: usize| (s + k) as usize),
        phases: m.phases,
    }
}

/// An error `k` characters further on.
pub open spec fn shift_error(e: SyntaxError, k: nat) -> SyntaxError {
    match e {
        SyntaxError::UnexpectedCharacterAt(p) => SyntaxError::UnexpectedCharacterAt(
            (p + k) as usize,
        ),
        SyntaxError::StructuralViolation(v, p) => SyntaxError::StructuralViolation(
            v,
            (p + k) as usize,
        ),
        _ => e,
    }
}

pub open spec fn shift_parse(r: Result<JsonModel, SyntaxError>, k: nat) -> Result<
    JsonModel,
    SyntaxError,
> {
    match r {
        Ok(v) => Ok(v),
        Err(e) => Err(shift_error(e, k)),
    }
}

pub open spec fn shift_step(r: Result<Machine, SyntaxError>, k: nat) -> Result<Machine, SyntaxError> {
    match r {
        Ok(m) => Ok(shift(m, k)),
        Err(e) => Err(shift_error(e, k)),
    }
}

/// Positions in the machine lie before the cursor, and shifting them by `k`
/// stays within `usize`.
pub open spec fn placed(t: Seq<char>, m: Machine, k: nat) -> bool {
    &&& m.cursor <= t.len()
    &&& t.len() + k <= usize::MAX
    &&& forall|i: int| 0 <= i < m.opens.len() ==> #[trigger] m.opens[i].cursor < m.cursor
    &&& forall|i: int| 0 <= i < m.starts.len() ==> #[trigger] m.starts[i] < m.cursor
}

proof fn lemma_tail_start_bounds(starts: Seq<usize>, start: usize, i: int)
    requires
        0 <= i <= starts.len(),
    ensures
        0 <= tail_start(starts, start, i) <= i,
    decreases i,
{
    if i > 0 {
        lemma_tail_start_bounds(starts, start, i - 1);
    }
}

proof fn lemma_tail_start_shift(starts: Seq<usize>, start: usize, i: int, k: nat)
    requires
        forall|j: int| 0 <= j < starts.len() ==> #[trigger] starts[j] + k <= usize::MAX,
        start + k <= usize::MAX,
    ensures
        tail_start(starts.map_values(|s: usize| (s + k) as usize), (start + k) as usize, i)
            == tail_start(starts, start, i),
    decreases i,
{
    if 0 < i <= starts.len() {
        lemma_tail_start_shift(starts, start, i - 1, k);
    }
}

pub open spec fn shift_closing(c: Closing, k: nat) -> Closing {
    Closing { starts: c.starts.map_values(|s: usize| (s + k) as usize), ..c }
}

proof fn lemma_close_members_shift(c: Closing, start: usize, pos: usize, k: nat)
    requires
        forall|j: int| 0 <= j < c.starts.len() ==> #[trigger] c.starts[j] + k <= usize::MAX,
        start + k <= usize::MAX,
        pos + k <= usize::MAX,
    ensures
        close_members(shift_closing(c, k), (start + k) as usize, (pos + k) as usize) == match close_members(c, start, pos) {
            Ok(d) => Ok::<Closing, SyntaxError>(shift_closing(d, k)),
            Err(e) => Err(shift_error(e, k)),
        },
        close_members(c, start, pos) matches Ok(d) ==> (forall|j: int| 0 <= j < d.starts.len() ==> #[trigger] d.starts[j] + k <= usize::MAX),
        close_members(c, start, pos) matches Ok(d) ==> d.starts.len() <= c.starts.len() && (
        forall|j: int| 0 <= j < d.starts.len() ==> #[trigger] d.starts[j] == c.starts[j]),
    decreases c.values.len(),
{
    let sc = shift_closing(c, k);
    if c.phases.len() > 0 && c.values.len() > 0 && c.starts.len() > 0 && c.starts.last() > start {
        let starts = c.starts.drop_last();
        if starts.len() > 0 {
            let next_starts = starts.drop_last();
            assert(sc.starts.drop_last().drop_last() =~= next_starts.map_values(|s: usize| (s + k) as usize));
            let value = c.values.last();
            let values = c.values.drop_last();
            let phases = c.phases.drop_last();
            let phases = if phases.len() > 0 {
                phases.drop_last()
            } else {
                phases
            };
            if values.len() > 0 {
                if let JsonModel::Str(key) = values.last() {
                    let d = Closing {
                        values: values.drop_last(),
                        starts: next_starts,
                        phases,
                        pairs: seq![(key, value)] + c.pairs,
                        popped: true,
                    };
                    lemma_close_members_shift(d, start, pos, k);
                    assert(shift_closing(d, k).starts =~= sc.starts.drop_last().drop_last());
                }
            }
        }
    }
}

proof fn lemma_step_shift(ws: Seq<char>, t: Seq<char>, m: Machine)
    requires
        m.cursor < t.len(),
        placed(t, m, ws.len()),
    ensures
        step(ws + t, shift(m, ws.len())) == shift_step(step(t, m), ws.len()),
        step(t, m) matches Ok(n) ==> placed(t, n, ws.len()),
{
    let k = ws.len();
    let u = ws + t;
    let sm = shift(m, k);
    lemma_step_progresses(t, m);
    assert(u[sm.cursor as int] == t[m.cursor as int]);
    assert(sm.opens.len() == m.opens.len());
    if let Some(s) = opener(t[m.cursor as int]) {
        let o = StateWithCursor { state: s, cursor: m.cursor };
        assert(sm.opens.push(shift_open(o, k)) =~= m.opens.push(o).map_values(
            |o: StateWithCursor| shift_open(o, k),
        ));
    }
    if m.opens.len() == 0 {
        assert(step(u, sm) == shift_step(step(t, m), k));
    } else {
        let top = m.opens.last();
        assert(sm.opens.last() == shift_open(top, k));
        assert(sm.opens.drop_last() =~= m.opens.drop_last().map_values(|o: StateWithCursor| shift_open(o, k)));
        assert(sm.starts.push((top.cursor + k) as usize) =~= m.starts.push(top.cursor).map_values(|s: usize| (s + k) as usize));
        match top.state {
            State::StringOpen => {
                assert(u.subrange(top.cursor + k + 1, m.cursor + k) =~= t.subrange(top.cursor + 1, m.cursor as int));
                assert(step(u, sm) == shift_step(step(t, m), k));
            },
            State::NumberOpen => {
                assert(u.subrange(top.cursor + k, m.cursor + k) =~= t.subrange(top.cursor as int, m.cursor as int));
                assert(step(u, sm) == shift_step(step(t, m), k));
            },
            State::TrueOpen | State::FalseOpen | State::NullOpen => {
                let rest = literal_rest(top.state);
                if m.cursor + rest.len() <= t.len() {
                    assert(u.subrange(m.cursor + k, m.cursor + k + rest.len()) =~= t.subrange(m.cursor as int, m.cursor + rest.len()));
                } else {
                    assert(u.subrange(m.cursor + k, u.len() as int) =~= t.subrange(
                        m.cursor as int,
                        t.len() as int,
                    ));
                }
                assert(step(u, sm) == shift_step(step(t, m), k));
            },
            State::ArrayOpen => {
                let at = tail_start(m.starts, top.cursor, m.starts.len() as int);
                lemma_tail_start_shift(m.starts, top.cursor, m.starts.len() as int, k);
                lemma_tail_start_bounds(m.starts, top.cursor, m.starts.len() as int);
                assert(sm.starts.subrange(0, at).push((top.cursor + k) as usize) =~= m.starts.subrange(0, at).push(top.cursor).map_values(|s: usize| (s + k) as usize));
                assert(step(u, sm) == shift_step(step(t, m), k));
            },
            State::ObjectOpen => {
                let c = Closing {
                    values: m.values,
                    starts: m.starts,
                    phases: m.phases,
                    pairs: Seq::empty(),
                    popped: false,
                };
                lemma_close_members_shift(c, top.cursor, m.cursor, k);
                assert(shift_closing(c, k).starts =~= sm.starts);
                if let Ok(d) = close_members(c, top.cursor, m.cursor) {
                    assert(shift_closing(d, k).starts.push((top.cursor + k) as usize) =~= d.starts.push(top.cursor).map_values(|s: usize| (s + k) as usize));
                }
                assert(step(u, sm) == shift_step(step(t, m), k));
            },
        }
    }
}

proof fn lemma_finish_shift(ws: Seq<char>, t: Seq<char>, m: Machine)
    requires
        placed(t, m, ws.len()),
        m.cursor == t.len(),
    ensures
        finish(ws + t, shift(m, ws.len())) == shift_parse(finish(t, m), ws.len()),
{
    let k = ws.len();
    let u = ws + t;
    let sm = shift(m, k);
    if m.opens.len() > 0 && m.opens.last().state == State::NumberOpen {
        let top = m.opens.last();
        assert(sm.opens.last() == shift_open(top, k));
        assert(u.subrange(top.cursor + k, u.len() as int) =~= t.subrange(
            top.cursor as int,
            t.len() as int,
        ));
    }
}

proof fn lemma_run_shift(ws: Seq<char>, t: Seq<char>, m: Machine)
    requires
        placed(t, m, ws.len()),
    ensures
        run(ws + t, shift(m, ws.len())) == shift_parse(run(t, m), ws.len()),
    decreases t.len() - m.cursor, m.opens.len(),
{
    let k = ws.len();
    if m.cursor >= t.len() {
        lemma_finish_shift(ws, t, m);
    } else {
        lemma_step_shift(ws, t, m);
        lemma_step_progresses(t, m);
        if let Ok(n) = step(t, m) {
            lemma_run_shift(ws, t, n);
        }
    }
}

/// Each leading whitespace character is skipped.
proof fn lemma_skip_leading(ws: Seq<char>, t: Seq<char>, i: nat)
    requires
        forall|j: int| 0 <= j < ws.len() ==> is_space_char(#[trigger] ws[j]),
        i <= ws.len(),
        ws.len() + t.len() <= usize::MAX,
    ensures
        run(ws + t, Machine { cursor: i as usize, ..initial() }) == run(
            ws + t,
            Machine { cursor: ws.len() as usize, ..initial() },
        ),
    decreases ws.len() - i,
{
    if i < ws.len() {
        assert((ws + t)[i as int] == ws[i as int]);
        lemma_skip_leading(ws, t, i + 1);
    }
}

/// Whitespace in front of a text changes nothing but the positions that
/// errors report, which move by its length: a value parsed is the same.
pub proof fn leading_whitespace_is_ignored(ws: Seq<char>, t: Seq<char>)
    requires
        forall|j: int| 0 <= j < ws.len() ==> is_space_char(#[trigger] ws[j]),
        ws.len() + t.len() <= usize::MAX,
    ensures
        parse_spec(ws + t) == shift_parse(parse_spec(t), ws.len()),
{
    let k = ws.len();
    if k > 0 {
        lemma_skip_leading(ws, t, 0);
        let e = shift(initial(), k);
        assert(e.opens =~= Seq::<StateWithCursor>::empty());
        assert(e.starts =~= Seq::<usize>::empty());
        assert(e == Machine { cursor: k as usize, ..initial() });
        lemma_run_shift(ws, t, initial());
    } else {
        assert(ws + t =~= t);
    }
}

proof fn lemma_step_extend(t: Seq<char>, ws: Seq<char>, m: Machine)
    requires
        m.cursor < t.len(),
        placed(t, m, ws.len()),
        forall|j: int| 0 <= j < ws.len() ==> is_space_char(#[trigger] ws[j]),
    ensures
        step(t, m) is Ok ==> step(t + ws, m) == step(t, m),
{
    let u = t + ws;
    assert(u[m.cursor as int] == t[m.cursor as int]);
    if m.opens.len() > 0 {
        let top = m.opens.last();
        match top.state {
            State::StringOpen => {
                assert(u.subrange(top.cursor + 1, m.cursor as int) =~= t.subrange(
                    top.cursor + 1,
                    m.cursor as int,
                ));
            },
            State::NumberOpen => {
                assert(u.subrange(top.cursor as int, m.cursor as int) =~= t.subrange(
                    top.cursor as int,
                    m.cursor as int,
                ));
            },
            State::TrueOpen | State::FalseOpen | State::NullOpen => {
                let rest = literal_rest(top.state);
                let end = m.cursor + rest.len();
                if end <= t.len() {
                    assert(u.subrange(m.cursor as int, end) =~= t.subrange(m.cursor as int, end));
                } else if end <= u.len() {
                    let j = t.len() - m.cursor;
                    assert(u.subrange(m.cursor as int, end)[j] == ws[0]);
                    assert(u.subrange(m.cursor as int, end) != rest);
                }
            },
            _ => {},
        }
    }
}

/// With nothing open, the rest of a text made of whitespace is skipped.
proof fn lemma_skip_trailing(u: Seq<char>, m: Machine)
    requires
        m.opens.len() == 0,
        m.cursor <= u.len() <= usize::MAX,
        forall|j: int| m.cursor <= j < u.len() ==> is_space_char(#[trigger] u[j]),
    ensures
        run(u, m) == finish(u, m),
    decreases u.len() - m.cursor,
{
    if m.cursor < u.len() {
        lemma_skip_trailing(u, Machine { cursor: (m.cursor + 1) as usize, ..m });
    }
}

proof fn lemma_run_trailing(t: Seq<char>, ws: Seq<char>, m: Machine)
    requires
        placed(t, m, ws.len()),
        forall|j: int| 0 <= j < ws.len() ==> is_space_char(#[trigger] ws[j]),
        run(t, m) is Ok,
    ensures
        run(t + ws, m) == run(t, m),
    decreases t.len() - m.cursor, m.opens.len(),
{
    let u = t + ws;
    if m.cursor < t.len() {
        lemma_step_extend(t, ws, m);
        lemma_step_shift(ws, t, m);
        lemma_step_progresses(t, m);
        if let Ok(n) = step(t, m) {
            lemma_run_trailing(t, ws, n);
        }
    } else if ws.len() == 0 {
        assert(u =~= t);
    } else {
        assert(forall|j: int| t.len() <= j < u.len() ==> #[trigger] u[j] == ws[j - t.len()]);
        if m.opens.len() == 0 {
            lemma_skip_trailing(u, m);
        } else {
            let top = m.opens.last();
            assert(u[m.cursor as int] == ws[0]);
            assert(u.subrange(top.cursor as int, t.len() as int) =~= t.subrange(
                top.cursor as int,
                t.len() as int,
            ));
            if let Ok(n) = step(u, m) {
                lemma_skip_trailing(u, n);
            }
        }
    }
}

/// Whitespace after a text that parses changes nothing.
pub proof fn trailing_whitespace_is_ignored(t: Seq<char>, ws: Seq<char>)
    requires
        forall|j: int| 0 <= j < ws.len() ==> is_space_char(#[trigger] ws[j]),
        t.len() + ws.len() <= usize::MAX,
        parse_spec(t) is Ok,
    ensures
        parse_spec(t + ws) == parse_spec(t),
{
    lemma_run_trailing(t, ws, initial());
}

/// The text `[d0,d1,...]` of a list of one-character numbers.
pub open spec fn digit_list(ds: Seq<char>) -> Seq<char> {
    Seq::new(
        2 * ds.len() + 1,
        |j: int|
            if j == 0 {
                '['
            } else if j == 2 * ds.len() {
                ']'
            } else if j % 2 == 1 {
                ds[(j - 1) / 2]
            } else {
                ','
            },
    )
}

pub open spec fn digit_values(ds: Seq<char>, k: int) -> Seq<JsonModel> {
    Seq::new(k as nat, |i: int| JsonModel::Number(seq![ds[i]]))
}

/// The machine inside `[d0,d1,...]` once `k` elements are read.
pub open spec fn digits_read(ds: Seq<char>, k: int) -> Machine {
    Machine {
        cursor: (1 + 2 * k) as usize,
        opens: seq![StateWithCursor { state: State::ArrayOpen, cursor: 0 }],
        values: digit_values(ds, k),
        starts: Seq::new(k as nat, |i: int| (1 + 2 * i) as usize),
        phases: Seq::empty(),
    }
}

proof fn lemma_tail_start_all_after(starts: Seq<usize>, i: int)
    requires
        0 <= i <= starts.len(),
        forall|j: int| 0 <= j < starts.len() ==> #[trigger] starts[j] > 0,
    ensures
        tail_start(starts, 0, i) == 0,
    decreases i,
{
    if i > 0 {
        lemma_tail_start_all_after(starts, i - 1);
    }
}

proof fn lemma_digits_from(ds: Seq<char>, k: int)
    requires
        0 <= k < ds.len(),
        2 * ds.len() + 1 <= usize::MAX,
        forall|i: int| 0 <= i < ds.len() ==> is_number_char(#[trigger] ds[i]) && ds[i] != '.',
    ensures
        run(digit_list(ds), digits_read(ds, k)) == Ok::<JsonModel, SyntaxError>(
            JsonModel::Array(digit_values(ds, ds.len() as int)),
        ),
    decreases ds.len() - k,
{
    let t = digit_list(ds);
    let n = ds.len() as int;
    let m0 = digits_read(ds, k);
    assert(t[1 + 2 * k] == ds[k]);
    let m1 = Machine {
        cursor: (2 + 2 * k) as usize,
        opens: m0.opens.push(StateWithCursor { state: State::NumberOpen, cursor: (1 + 2 * k) as usize }),
        ..m0
    };
    assert(step(t, m0) == Ok::<Machine, SyntaxError>(m1));
    let text = t.subrange(1 + 2 * k, 2 + 2 * k);
    assert(text =~= seq![ds[k]]);
    assert(text[0] != '.');
    assert(valid_number(text));
    let m2 = Machine {
        cursor: (2 + 2 * k) as usize,
        opens: m0.opens,
        values: digit_values(ds, k + 1),
        starts: Seq::new((k + 1) as nat, |i: int| (1 + 2 * i) as usize),
        phases: Seq::empty(),
    };
    assert(m1.opens.drop_last() =~= m0.opens);
    assert(m0.values.push(JsonModel::Number(text)) =~= m2.values);
    assert(m0.starts.push((1 + 2 * k) as usize) =~= m2.starts);
    assert(step(t, m1) == Ok::<Machine, SyntaxError>(m2));
    assert(run(t, m0) == run(t, m1));
    assert(run(t, m1) == run(t, m2));
    if k + 1 < n {
        assert(t[2 + 2 * k] == ',');
        assert(step(t, m2) == Ok::<Machine, SyntaxError>(digits_read(ds, k + 1)));
        assert(run(t, m2) == run(t, digits_read(ds, k + 1)));
        lemma_digits_from(ds, k + 1);
    } else {
        assert(t[2 + 2 * k] == ']');
        lemma_tail_start_all_after(m2.starts, m2.starts.len() as int);
        assert(m2.values.subrange(0, n) =~= digit_values(ds, n));
        assert(m2.values.subrange(0, 0).push(JsonModel::Array(m2.values.subrange(0, n)))
            =~= seq![JsonModel::Array(digit_values(ds, n))]);
        let m3 = close_array(m2);
        assert(step(t, m2) == Ok::<Machine, SyntaxError>(m3));
        assert(m3.cursor == t.len());
        assert(m3.opens =~= Seq::<StateWithCursor>::empty());
        assert(run(t, m2) == run(t, m3));
        assert(run(t, m3) == finish(t, m3));
    }
}

/// Order is kept in arrays: `[d0,d1,...]`, for any non-empty list of the
/// digits 1 to 9, parses to the numbers `d0`, `d1`, ... in that order.
pub proof fn array_of_digits_keeps_order(ds: Seq<char>)
    requires
        ds.len() > 0,
        2 * ds.len() + 1 <= usize::MAX,
        forall|i: int| 0 <= i < ds.len() ==> is_number_char(#[trigger] ds[i]) && ds[i] != '.',
    ensures
        parse_spec(digit_list(ds)) == Ok::<JsonModel, SyntaxError>(
            JsonModel::Array(Seq::new(ds.len(), |i: int| JsonModel::Number(seq![ds[i]]))),
        ),
{
    let t = digit_list(ds);
    assert(t[0] == '[');
    let m = digits_read(ds, 0);
    assert(m.values =~= Seq::<JsonModel>::empty());
    assert(m.starts =~= Seq::<usize>::empty());
    assert(step(t, initial()) == Ok::<Machine, SyntaxError>(m));
    lemma_digits_from(ds, 0);
}

} // verus!
