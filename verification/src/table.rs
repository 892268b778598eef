//! The textual transition-table format: one line per state holding `+` or
//! `-`, the state id, and one destination per alphabet column with `E` for
//! none. This module prints a table and parses one back.

use vstd::prelude::*;
use crate::codec::CodecError;
use crate::dfa::{DFA, RowView, StateRow};
use crate::textfmt::{
    all_dec_digits, dec_digits, fields_of, lines_of, parse_u32, parse_u32_spec, split_lines,
    split_ws,
};

verus! {

/// Why a scanner definition or a transition table was refused.
#[derive(Debug, Clone, Copy, PartialEq, Eq, Structural)]
pub enum ConfigError {
    /// A table row holds fewer than two fields.
    MissingFields,
    /// A table row does not open with `+` or `-`.
    BadRowStart,
    /// The second field of a table row is not a non-negative integer.
    BadStateId,
    /// A transition field is neither a non-negative integer nor `E`.
    BadTransition,
    /// Not all rows hold the same number of transitions, or the number
    /// differs from the alphabet size.
    WidthMismatch,
    /// A row's state id is not its position in the table.
    BadRowOrder,
    /// A transition leads outside the table.
    BadDestination,
    /// The table holds no rows.
    EmptyTable,
    /// The alphabet line did not decode.
    AlphabetDecode { err: CodecError },
    /// The alphabet holds the same byte twice.
    DuplicateAlphabetByte { byte: u8 },
    /// A scanner-definition line has neither two nor three fields.
    MalformedScannerLine,
    /// The scanner definition holds no alphabet line.
    MissingAlphabet,
}

/// What one destination prints to: its decimal id, or `E` for none.
pub open spec fn print_dest(d: Option<u32>) -> Seq<u8> {
    match d {
        Some(t) => dec_digits(t as nat),
        None => seq![0x45u8],
    }
}

/// What a row's destinations print to: each one with a space after it.
pub open spec fn print_dests(ts: Seq<Option<u32>>) -> Seq<u8>
    decreases ts.len(),
{
    if ts.len() == 0 {
        Seq::empty()
    } else {
        print_dest(ts[0]) + seq![0x20u8] + print_dests(ts.drop_first())
    }
}

/// What one row prints to: the acceptance sign, the id and the
/// destinations, space-separated, under a final line feed.
pub open spec fn print_row(r: RowView) -> Seq<u8> {
    (if r.accepting {
        seq![0x2bu8]
    } else {
        seq![0x2du8]
    }) + seq![0x20u8] + dec_digits(r.state_id as nat) + seq![0x20u8] + print_dests(r.transitions)
        + seq![0x0au8]
}

/// What a table prints to: its rows in order.
pub open spec fn print_table(rows: Seq<RowView>) -> Seq<u8>
    decreases rows.len(),
{
    if rows.len() == 0 {
        Seq::empty()
    } else {
        print_row(rows[0]) + print_table(rows.drop_first())
    }
}

/// What one transition field parses to.
pub open spec fn parse_dest_spec(f: Seq<u8>) -> Result<Option<u32>, ConfigError> {
    if f == seq![0x45u8] {
        Ok(None)
    } else {
        match parse_u32_spec(f) {
            Some(v) => Ok(Some(v)),
            None => Err(ConfigError::BadTransition),
        }
    }
}

/// What a row's transition fields parse to, or the error met first.
pub open spec fn parse_dests_spec(fs: Seq<Seq<u8>>) -> Result<Seq<Option<u32>>, ConfigError>
    decreases fs.len(),
{
    if fs.len() == 0 {
        Ok(Seq::empty())
    } else {
        match parse_dest_spec(fs[0]) {
            Err(e) => Err(e),
            Ok(d) => match parse_dests_spec(fs.drop_first()) {
                Err(e) => Err(e),
                Ok(rest) => Ok(seq![d] + rest),
            },
        }
    }
}

/// What one line's fields parse to: sign, id, destinations.
pub open spec fn parse_row_spec(fields: Seq<Seq<u8>>) -> Result<RowView, ConfigError> {
    if fields.len() < 2 {
        Err(ConfigError::MissingFields)
    } else if fields[0] != seq![0x2bu8] && fields[0] != seq![0x2du8] {
        Err(ConfigError::BadRowStart)
    } else {
        match parse_u32_spec(fields[1]) {
            None => Err(ConfigError::BadStateId),
            Some(id) => match parse_dests_spec(fields.skip(2)) {
                Err(e) => Err(e),
                Ok(ds) => Ok(
                    RowView { accepting: fields[0] == seq![0x2bu8], state_id: id, transitions: ds },
                ),
            },
        }
    }
}

/// What a sequence of lines parses to, or the error met first.
pub open spec fn parse_rows_spec(ls: Seq<Seq<u8>>) -> Result<Seq<RowView>, ConfigError>
    decreases ls.len(),
{
    if ls.len() == 0 {
        Ok(Seq::empty())
    } else {
        match parse_row_spec(split_ws(ls[0])) {
            Err(e) => Err(e),
            Ok(r) => match parse_rows_spec(ls.drop_first()) {
                Err(e) => Err(e),
                Ok(rest) => Ok(seq![r] + rest),
            },
        }
    }
}

/// Whether every row holds as many transitions as the first.
pub open spec fn uniform_width(rows: Seq<RowView>) -> bool {
    forall|i: int|
        0 <= i < rows.len() ==> (#[trigger] rows[i]).transitions.len() == rows[0].transitions.len()
}

/// What a whole table text parses to: its rows, which must all have the
/// width of the first.
pub open spec fn parse_table_spec(text: Seq<u8>) -> Result<Seq<RowView>, ConfigError> {
    match parse_rows_spec(split_lines(text)) {
        Err(e) => Err(e),
        Ok(rows) => if uniform_width(rows) {
            Ok(rows)
        } else {
            Err(ConfigError::WidthMismatch)
        },
    }
}

/// The mathematical rows of a row vector.
pub open spec fn rows_view(tt: Seq<StateRow>) -> Seq<RowView> {
    tt.map_values(|r: StateRow| r@)
}

proof fn lemma_print_dests_push(ts: Seq<Option<u32>>, c: int)
    requires
        0 <= c < ts.len(),
    ensures
        print_dests(ts.take(c + 1)) == print_dests(ts.take(c)) + print_dest(ts[c]) + seq![0x20u8],
    decreases c,
{
    let a = ts.take(c + 1);
    let b = ts.take(c);
    if c == 0 {
        assert(a.drop_first() =~= Seq::<Option<u32>>::empty());
        assert(b =~= Seq::<Option<u32>>::empty());
        assert(print_dests(a) =~= print_dests(b) + print_dest(ts[0]) + seq![0x20u8]);
    } else {
        lemma_print_dests_push(ts.drop_first(), c - 1);
        assert(a.drop_first() =~= ts.drop_first().take(c));
        assert(b.drop_first() =~= ts.drop_first().take(c - 1));
        assert(print_dests(a) =~= print_dests(b) + print_dest(ts[c]) + seq![0x20u8]);
    }
}

proof fn lemma_print_table_push(rows: Seq<RowView>, i: int)
    requires
        0 <= i < rows.len(),
    ensures
        print_table(rows.take(i + 1)) == print_table(rows.take(i)) + print_row(rows[i]),
    decreases i,
{
    let a = rows.take(i + 1);
    let b = rows.take(i);
    if i == 0 {
        assert(a.drop_first() =~= Seq::<RowView>::empty());
        assert(b =~= Seq::<RowView>::empty());
        assert(print_table(a) =~= print_table(b) + print_row(rows[0]));
    } else {
        lemma_print_table_push(rows.drop_first(), i - 1);
        assert(a.drop_first() =~= rows.drop_first().take(i));
        assert(b.drop_first() =~= rows.drop_first().take(i - 1));
        assert(print_table(a) =~= print_table(b) + print_row(rows[i]));
    }
}

pub(crate) fn append_bytes(out: &mut Vec<u8>, piece: &Vec<u8>)
    ensures
        final(out)@ == old(out)@ + piece@,
{
    let mut i: usize = 0;
    while i < piece.len()
        invariant
            i <= piece@.len(),
            out@ == old(out)@ + piece@.take(i as int),
        decreases piece@.len() - i,
    {
        out.push(piece[i]);
        proof {
            assert(old(out)@ + piece@.take(i + 1) =~= (old(out)@ + piece@.take(i as int)).push(
                piece@[i as int],
            ));
        }
        i = i + 1;
    }
    proof {
        assert(piece@.take(i as int) =~= piece@);
    }
}

impl DFA {
    /// Print the table, one line per state: the acceptance sign, the state
    /// id, and each destination with `E` for none, space-separated.
    pub fn print(&self) -> (r: Vec<u8>)
        requires
            self.wf(),
        ensures
            r@ == print_table(self.table().rows),
    {
        let ghost rows = self.table().rows;
        let mut output: Vec<u8> = Vec::new();
        let mut i: usize = 0;
        proof {
            assert(print_table(rows.take(0)) =~= Seq::<u8>::empty());
            assert(rows.take(0) =~= Seq::<RowView>::empty());
        }
        while i < self.states.len()
            invariant
                self.wf(),
                rows == self.table().rows,
                i <= self.states@.len(),
                output@ == print_table(rows.take(i as int)),
            decreases self.states@.len() - i,
        {
            let row = &self.states[i];
            proof {
                assert(rows[i as int] == row@);
            }
            if self.state_is_accepting(row.state_id) {
                output.push(0x2b);
            } else {
                output.push(0x2d);
            }
            output.push(0x20);
            let id_text = crate::textfmt::u32_to_decimal(row.state_id);
            append_bytes(&mut output, &id_text);
            output.push(0x20);
            let ghost ts = row@.transitions;
            let ghost head = print_table(rows.take(i as int)) + (if row@.accepting {
                seq![0x2bu8]
            } else {
                seq![0x2du8]
            }) + seq![0x20u8] + dec_digits(row@.state_id as nat) + seq![0x20u8];
            proof {
                assert(output@ =~= head + print_dests(ts.take(0)));
                assert(ts.take(0) =~= Seq::<Option<u32>>::empty());
            }
            let mut c: usize = 0;
            while c < row.transitions.len()
                invariant
                    c <= row.transitions@.len(),
                    ts == row@.transitions,
                    *row == self.states@[i as int],
                    i < self.states@.len(),
                    output@ == head + print_dests(ts.take(c as int)),
                decreases row.transitions@.len() - c,
            {
                match row.transitions[c] {
                    Some(t) => {
                        let t_text = crate::textfmt::u32_to_decimal(t);
                        append_bytes(&mut output, &t_text);
                    },
                    None => {
                        output.push(0x45);
                    },
                }
                output.push(0x20);
                proof {
                    lemma_print_dests_push(ts, c as int);
                    assert(output@ =~= head + print_dests(ts.take(c + 1)));
                }
                c = c + 1;
            }
            output.push(0x0a);
            proof {
                assert(ts.take(ts.len() as int) =~= ts);
                lemma_print_table_push(rows, i as int);
                assert(output@ =~= print_table(rows.take(i + 1)));
            }
            i = i + 1;
        }
        proof {
            assert(rows.take(i as int) =~= rows);
        }
        output
    }
}


/// Parse one table line: the acceptance sign, the state id, then each
/// destination as a number or `E`.
fn parse_row_line(line: &Vec<u8>) -> (r: Result<StateRow, ConfigError>)
    ensures
        (match parse_row_spec(split_ws(line@)) {
            Ok(row) => r is Ok && r->Ok_0@ == row,
            Err(e) => r is Err && r->Err_0 == e,
        }),
{
    let ghost fs = split_ws(line@);
    let fields = fields_of(line);
    if fields.len() < 2 {
        return Err(ConfigError::MissingFields);
    }
    let f0 = &fields[0];
    let plus = f0.len() == 1 && f0[0] == 0x2b;
    let minus = f0.len() == 1 && f0[0] == 0x2d;
    proof {
        if plus {
            assert(fs[0] =~= seq![0x2bu8]);
        }
        if minus {
            assert(fs[0] =~= seq![0x2du8]);
        }
    }
    if !plus && !minus {
        proof {
            assert(fs[0] == fields@[0]@);
            if fs[0] == seq![0x2bu8] {
                assert(fields@[0]@.len() == 1 && fields@[0]@[0] == 0x2b);
            }
            if fs[0] == seq![0x2du8] {
                assert(fields@[0]@.len() == 1 && fields@[0]@[0] == 0x2d);
            }
        }
        return Err(ConfigError::BadRowStart);
    }
    let id = match parse_u32(&fields[1]) {
        Some(v) => v,
        None => {
            return Err(ConfigError::BadStateId);
        },
    };
    let mut transitions: Vec<Option<u32>> = Vec::new();
    let mut k: usize = 2;
    proof {
        assert(fs.skip(2) =~= fs.skip(2));
    }
    while k < fields.len()
        invariant
            fs == split_ws(line@),
            2 <= k <= fields@.len(),
            fields@.len() == fs.len(),
            forall|i: int| 0 <= i < fields@.len() ==> (#[trigger] fields@[i])@ == fs[i],
            fs[0] == seq![0x2bu8] || fs[0] == seq![0x2du8],
            parse_u32_spec(fs[1]) is Some,
            parse_dests_spec(fs.skip(2)) == (match parse_dests_spec(fs.skip(k as int)) {
                Ok(rest) => Ok::<Seq<Option<u32>>, ConfigError>(transitions@ + rest),
                Err(e) => Err(e),
            }),
        decreases fields@.len() - k,
    {
        let ghost suffix = fs.skip(k as int);
        proof {
            assert(suffix[0] == fs[k as int]);
            assert(suffix.drop_first() =~= fs.skip(k as int + 1));
        }
        let f = &fields[k];
        let is_e = f.len() == 1 && f[0] == 0x45;
        let d: Option<u32> = if is_e {
            proof {
                assert(fs[k as int] =~= seq![0x45u8]);
            }
            None
        } else {
            proof {
                if fs[k as int] == seq![0x45u8] {
                    assert(fields@[k as int]@.len() == 1 && fields@[k as int]@[0] == 0x45);
                }
            }
            match parse_u32(f) {
                Some(v) => Some(v),
                None => {
                    return Err(ConfigError::BadTransition);
                },
            }
        };
        let ghost pre = transitions@;
        transitions.push(d);
        proof {
            let tail = parse_dests_spec(fs.skip(k as int + 1));
            if tail is Ok {
                assert(pre + (seq![d] + tail->Ok_0) =~= transitions@ + tail->Ok_0);
            }
        }
        k = k + 1;
    }
    proof {
        assert(fs.skip(k as int) =~= Seq::<Seq<u8>>::empty());
        let tail = parse_dests_spec(fs.skip(k as int));
        assert(tail == Ok::<Seq<Option<u32>>, ConfigError>(Seq::empty()));
        assert(transitions@ + Seq::<Option<u32>>::empty() =~= transitions@);
    }
    Ok(StateRow { accepting: plus, state_id: id, transitions })
}

/// Parse a whole transition-table text into its rows: one line per state,
/// whitespace-separated fields, and every row as wide as the first.
pub fn parse_transition_table(text: &Vec<u8>) -> (r: Result<Vec<StateRow>, ConfigError>)
    ensures
        (match parse_table_spec(text@) {
            Ok(rows) => r is Ok && rows_view(r->Ok_0@) == rows,
            Err(e) => r is Err && r->Err_0 == e,
        }),
{
    let ghost ls = split_lines(text@);
    let lines = lines_of(text);
    let mut tt: Vec<StateRow> = Vec::new();
    let mut i: usize = 0;
    proof {
        assert(ls.skip(0) =~= ls);
        assert(rows_view(tt@) =~= Seq::<RowView>::empty());
    }
    while i < lines.len()
        invariant
            ls == split_lines(text@),
            i <= lines@.len(),
            lines@.len() == ls.len(),
            forall|j: int| 0 <= j < lines@.len() ==> (#[trigger] lines@[j])@ == ls[j],
            parse_rows_spec(ls) == (match parse_rows_spec(ls.skip(i as int)) {
                Ok(rest) => Ok::<Seq<RowView>, ConfigError>(rows_view(tt@) + rest),
                Err(e) => Err(e),
            }),
        decreases lines@.len() - i,
    {
        let ghost suffix = ls.skip(i as int);
        proof {
            assert(suffix[0] == ls[i as int]);
            assert(suffix.drop_first() =~= ls.skip(i as int + 1));
        }
        match parse_row_line(&lines[i]) {
            Ok(row) => {
                let ghost pre = rows_view(tt@);
                let ghost rv = row@;
                tt.push(row);
                proof {
                    assert(rows_view(tt@) =~~= pre.push(rv));
                    let tail = parse_rows_spec(ls.skip(i as int + 1));
                    if tail is Ok {
                        assert(pre + (seq![rv] + tail->Ok_0) =~= rows_view(tt@) + tail->Ok_0);
                    }
                }
            },
            Err(e) => {
                return Err(e);
            },
        }
        i = i + 1;
    }
    proof {
        assert(ls.skip(i as int) =~= Seq::<Seq<u8>>::empty());
        assert(parse_rows_spec(ls) == Ok::<Seq<RowView>, ConfigError>(
            rows_view(tt@) + Seq::<RowView>::empty(),
        ));
        assert(rows_view(tt@) + Seq::<RowView>::empty() =~= rows_view(tt@));
    }
    if tt.len() > 0 {
        let w0 = tt[0].transitions.len();
        let mut j: usize = 1;
        while j < tt.len()
            invariant
                ls == split_lines(text@),
                parse_rows_spec(ls) == Ok::<Seq<RowView>, ConfigError>(rows_view(tt@)),
                1 <= j <= tt@.len(),
                tt@.len() > 0,
                w0 == tt@[0].transitions@.len(),
                forall|m: int|
                    0 <= m < j ==> (#[trigger] tt@[m]).transitions@.len() == w0,
            decreases tt@.len() - j,
        {
            if tt[j].transitions.len() != w0 {
                proof {
                    assert(rows_view(tt@)[j as int].transitions.len() != rows_view(
                        tt@,
                    )[0].transitions.len());
                    assert(!uniform_width(rows_view(tt@)));
                }
                return Err(ConfigError::WidthMismatch);
            }
            j = j + 1;
        }
        proof {
            assert forall|m: int| 0 <= m < rows_view(tt@).len() implies (#[trigger] rows_view(
                tt@,
            )[m]).transitions.len() == rows_view(tt@)[0].transitions.len() by {
                assert(tt@[m].transitions@.len() == w0);
            }
        }
    }
    Ok(tt)
}

/// Assemble a well-formed automaton from parsed rows and an alphabet:
/// the table must be non-empty, every row as wide as the alphabet, ids in
/// row order, and every destination inside the table.
pub fn dfa_from_table(states: Vec<StateRow>, alphabet: Vec<u8>) -> (r: Result<DFA, ConfigError>)
    ensures
        r is Ok <==> {
            &&& states@.len() > 0
            &&& forall|i: int|
                0 <= i < states@.len() ==> (#[trigger] states@[i])@.transitions.len()
                    == alphabet@.len()
            &&& forall|i: int| 0 <= i < states@.len() ==> (#[trigger] states@[i])@.state_id == i
            &&& forall|i: int, c: int|
                0 <= i < states@.len() && 0 <= c < alphabet@.len() ==> ((#[trigger] states@[i]@.transitions[c]) matches Some(t) ==> t < states@.len())
        },
        r is Ok ==> ({
            let d = r->Ok_0;
            &&& d.wf()
            &&& d.table().rows == rows_view(states@)
            &&& d.table().alphabet == alphabet@
            &&& d.len_alphabet == alphabet@.len()
            &&& d.matching == true
            &&& d.will_not_match == false
            &&& d.current_state == 0
            &&& d.longest_accepting_match@ == Seq::<u8>::empty()
            &&& d.current_read_sequence@ == Seq::<u8>::empty()
        }),
        r is Err ==> r->Err_0 == (if states@.len() == 0 {
            ConfigError::EmptyTable
        } else if !(forall|i: int|
            0 <= i < states@.len() ==> (#[trigger] states@[i])@.transitions.len()
                == alphabet@.len()) {
            ConfigError::WidthMismatch
        } else if !(forall|i: int|
            0 <= i < states@.len() ==> (#[trigger] states@[i])@.state_id == i) {
            ConfigError::BadRowOrder
        } else {
            ConfigError::BadDestination
        }),
{
    if states.len() == 0 {
        return Err(ConfigError::EmptyTable);
    }
    let n = states.len();
    let mut i: usize = 0;
    while i < n
        invariant
            i <= n,
            n == states@.len(),
            forall|m: int|
                0 <= m < i ==> (#[trigger] states@[m])@.transitions.len() == alphabet@.len(),
        decreases n - i,
    {
        if states[i].transitions.len() != alphabet.len() {
            return Err(ConfigError::WidthMismatch);
        }
        i = i + 1;
    }
    let mut i2: usize = 0;
    while i2 < n
        invariant
            i2 <= n,
            0 < n == states@.len(),
            forall|m: int|
                0 <= m < n ==> (#[trigger] states@[m])@.transitions.len() == alphabet@.len(),
            forall|m: int| 0 <= m < i2 ==> (#[trigger] states@[m])@.state_id == m,
        decreases n - i2,
    {
        if states[i2].state_id as usize != i2 {
            return Err(ConfigError::BadRowOrder);
        }
        i2 = i2 + 1;
    }
    let mut i3: usize = 0;
    while i3 < n
        invariant
            i3 <= n,
            0 < n == states@.len(),
            forall|m: int|
                0 <= m < n ==> (#[trigger] states@[m])@.transitions.len() == alphabet@.len(),
            forall|m: int| 0 <= m < n ==> (#[trigger] states@[m])@.state_id == m,
            forall|m: int, c: int|
                0 <= m < i3 && 0 <= c < states@[m]@.transitions.len() ==> ((#[trigger] states@[m]@.transitions[c]) matches Some(t) ==> t < states@.len()),
        decreases n - i3,
    {
        let row = &states[i3];
        let mut c: usize = 0;
        while c < row.transitions.len()
            invariant
                c <= row.transitions@.len(),
                i3 < n,
                0 < n == states@.len(),
                forall|m: int|
                    0 <= m < n ==> (#[trigger] states@[m])@.transitions.len() == alphabet@.len(),
                forall|m: int| 0 <= m < n ==> (#[trigger] states@[m])@.state_id == m,
                *row == states@[i3 as int],
                forall|cc: int|
                    0 <= cc < c ==> ((#[trigger] row.transitions@[cc]) matches Some(t) ==> t
                        < states@.len()),
            decreases row.transitions@.len() - c,
        {
            match row.transitions[c] {
                Some(t) => {
                    if t as usize >= n {
                        proof {
                            assert(states@[i3 as int]@.transitions[c as int] matches Some(tt)
                                && tt >= states@.len());
                        }
                        return Err(ConfigError::BadDestination);
                    }
                },
                None => {},
            }
            c = c + 1;
        }
        i3 = i3 + 1;
    }
    match DFA::new(states, alphabet) {
        Ok(d) => {
            proof {
                assert(d.table().wf());
            }
            Ok(d)
        },
        Err(_) => Err(ConfigError::EmptyTable),
    }
}


/// No byte of `s` is a line feed.
pub open spec fn no_lf(s: Seq<u8>) -> bool {
    forall|i: int| 0 <= i < s.len() ==> #[trigger] s[i] != 0x0a
}

/// The fields a row's destinations print to, one per destination.
pub open spec fn dest_fields(ts: Seq<Option<u32>>) -> Seq<Seq<u8>> {
    Seq::new(ts.len(), |i: int| print_dest(ts[i]))
}

/// A printed row without its final line feed.
pub open spec fn row_body(r: RowView) -> Seq<u8> {
    (if r.accepting {
        seq![0x2bu8]
    } else {
        seq![0x2du8]
    }) + seq![0x20u8] + dec_digits(r.state_id as nat) + seq![0x20u8] + print_dests(r.transitions)
}

proof fn lemma_digits_plain(n: nat)
    ensures
        dec_digits(n).len() >= 1,
        all_dec_digits(dec_digits(n)),
        forall|i: int|
            0 <= i < dec_digits(n).len() ==> !crate::textfmt::is_ws(#[trigger] dec_digits(n)[i]),
{
    crate::textfmt::lemma_dec_digits_value(n);
    assert forall|i: int| 0 <= i < dec_digits(n).len() implies !crate::textfmt::is_ws(
        #[trigger] dec_digits(n)[i],
    ) by {
        assert(crate::textfmt::is_dec_digit(dec_digits(n)[i]));
    }
}

proof fn lemma_print_dest_field(d: Option<u32>)
    ensures
        print_dest(d).len() >= 1,
        forall|i: int|
            0 <= i < print_dest(d).len() ==> !crate::textfmt::is_ws(#[trigger] print_dest(d)[i]),
        parse_dest_spec(print_dest(d)) == Ok::<Option<u32>, ConfigError>(d),
{
    match d {
        None => {
            assert(print_dest(d) =~= seq![0x45u8]);
            assert(!crate::textfmt::is_ws(print_dest(d)[0]));
        },
        Some(t) => {
            lemma_digits_plain(t as nat);
            crate::textfmt::lemma_dec_digits_value(t as nat);
            if print_dest(d) == seq![0x45u8] {
                assert(crate::textfmt::is_dec_digit(dec_digits(t as nat)[0]));
                assert(false);
            }
        },
    }
}

proof fn lemma_split_dests(ts: Seq<Option<u32>>)
    ensures
        crate::textfmt::split_ws_acc(print_dests(ts), Seq::empty()) == dest_fields(ts),
        no_lf(print_dests(ts)),
    decreases ts.len(),
{
    if ts.len() == 0 {
        assert(print_dests(ts) =~= Seq::<u8>::empty());
        assert(crate::textfmt::split_ws_acc(Seq::<u8>::empty(), Seq::<u8>::empty())
            =~= Seq::<Seq<u8>>::empty());
        assert(dest_fields(ts) =~= Seq::<Seq<u8>>::empty());
    } else {
        let f0 = print_dest(ts[0]);
        let rest = print_dests(ts.drop_first());
        lemma_print_dest_field(ts[0]);
        lemma_split_dests(ts.drop_first());
        crate::textfmt::lemma_split_ws_field(f0, rest, Seq::empty());
        assert(print_dests(ts) =~= f0 + seq![0x20u8] + rest);
        assert(Seq::<u8>::empty() + f0 =~= f0);
        assert(seq![f0] + dest_fields(ts.drop_first()) =~= dest_fields(ts));
        assert forall|i: int| 0 <= i < print_dests(ts).len() implies #[trigger] print_dests(
            ts,
        )[i] != 0x0a by {
            if i < f0.len() {
                assert(print_dests(ts)[i] == f0[i]);
                assert(!crate::textfmt::is_ws(f0[i]));
            } else if i == f0.len() {
                assert(print_dests(ts)[i] == 0x20);
            } else {
                assert(print_dests(ts)[i] == rest[i - f0.len() - 1]);
            }
        }
    }
}

proof fn lemma_parse_dest_fields(ts: Seq<Option<u32>>)
    ensures
        parse_dests_spec(dest_fields(ts)) == Ok::<Seq<Option<u32>>, ConfigError>(ts),
    decreases ts.len(),
{
    if ts.len() == 0 {
        assert(dest_fields(ts) =~= Seq::<Seq<u8>>::empty());
        assert(ts =~= Seq::<Option<u32>>::empty());
    } else {
        lemma_print_dest_field(ts[0]);
        lemma_parse_dest_fields(ts.drop_first());
        assert(dest_fields(ts)[0] == print_dest(ts[0]));
        assert(dest_fields(ts).drop_first() =~= dest_fields(ts.drop_first()));
        assert(seq![ts[0]] + ts.drop_first() =~= ts);
    }
}

proof fn lemma_row_roundtrip(r: RowView)
    ensures
        print_row(r) == row_body(r) + seq![0x0au8],
        no_lf(row_body(r)),
        parse_row_spec(split_ws(row_body(r))) == Ok::<RowView, ConfigError>(r),
{
    let sign: Seq<u8> = if r.accepting {
        seq![0x2bu8]
    } else {
        seq![0x2du8]
    };
    let digits = dec_digits(r.state_id as nat);
    let dests = print_dests(r.transitions);
    assert(print_row(r) =~= row_body(r) + seq![0x0au8]);
    lemma_digits_plain(r.state_id as nat);
    crate::textfmt::lemma_dec_digits_value(r.state_id as nat);
    lemma_split_dests(r.transitions);

    // fields of the body: the sign, the id, then one field per destination
    let rest1 = digits + seq![0x20u8] + dests;
    assert(row_body(r) =~= sign + seq![0x20u8] + rest1);
    assert(forall|i: int| 0 <= i < sign.len() ==> !crate::textfmt::is_ws(#[trigger] sign[i]));
    crate::textfmt::lemma_split_ws_field(sign, rest1, Seq::empty());
    assert(Seq::<u8>::empty() + sign =~= sign);
    crate::textfmt::lemma_split_ws_field(digits, dests, Seq::empty());
    assert(Seq::<u8>::empty() + digits =~= digits);
    let fields = split_ws(row_body(r));
    assert(fields == seq![sign] + (seq![digits] + dest_fields(r.transitions)));
    assert(fields =~= seq![sign, digits] + dest_fields(r.transitions));

    // the body has no line feed
    assert forall|i: int| 0 <= i < row_body(r).len() implies #[trigger] row_body(r)[i]
        != 0x0a by {
        let b = row_body(r);
        if i < sign.len() {
            assert(b[i] == sign[i]);
        } else if i == sign.len() {
            assert(b[i] == 0x20);
        } else if i < sign.len() + 1 + digits.len() {
            assert(b[i] == digits[i - sign.len() - 1]);
            assert(crate::textfmt::is_dec_digit(digits[i - sign.len() - 1]));
        } else if i == sign.len() + 1 + digits.len() {
            assert(b[i] == 0x20);
        } else {
            assert(b[i] == dests[i - sign.len() - digits.len() - 2]);
        }
    }

    // the fields parse back to the row
    assert(fields.len() >= 2);
    assert(fields[0] == sign);
    assert(fields[1] == digits);
    assert(sign == seq![0x2bu8] || sign == seq![0x2du8]);
    assert(seq![0x2bu8] != seq![0x2du8]) by {
        assert(seq![0x2bu8][0] != seq![0x2du8][0]);
    }
    assert((fields[0] == seq![0x2bu8]) == r.accepting);
    assert(parse_u32_spec(fields[1]) == Some(r.state_id));
    assert(fields.skip(2) =~= dest_fields(r.transitions));
    lemma_parse_dest_fields(r.transitions);
    assert(parse_row_spec(fields) == Ok::<RowView, ConfigError>(
        RowView {
            accepting: r.accepting,
            state_id: r.state_id,
            transitions: r.transitions,
        },
    ));
    assert(RowView { accepting: r.accepting, state_id: r.state_id, transitions: r.transitions }
        =~~= r);
}

proof fn lemma_table_roundtrip(rows: Seq<RowView>)
    ensures
        parse_rows_spec(split_lines(print_table(rows))) == Ok::<Seq<RowView>, ConfigError>(rows),
    decreases rows.len(),
{
    if rows.len() == 0 {
        assert(print_table(rows) =~= Seq::<u8>::empty());
        assert(split_lines(Seq::<u8>::empty()) =~= Seq::<Seq<u8>>::empty());
        assert(rows =~= Seq::<RowView>::empty());
    } else {
        let r0 = rows[0];
        let rest_text = print_table(rows.drop_first());
        lemma_row_roundtrip(r0);
        lemma_table_roundtrip(rows.drop_first());
        assert(print_table(rows) =~= row_body(r0) + seq![0x0au8] + rest_text);
        crate::textfmt::lemma_split_lines_line(row_body(r0), rest_text, Seq::empty());
        assert(Seq::<u8>::empty() + row_body(r0) =~= row_body(r0));
        let ls = split_lines(print_table(rows));
        assert(ls == seq![row_body(r0)] + split_lines(rest_text));
        assert(ls[0] == row_body(r0));
        assert(ls.drop_first() =~= split_lines(rest_text));
        assert(seq![r0] + rows.drop_first() =~= rows);
    }
}

/// Printing round-trips: parsing the text a table prints to yields that
/// table's rows unchanged, for any well-formed automaton.
pub proof fn lemma_print_parse_roundtrip(t: crate::dfa::TableView)
    requires
        t.wf(),
    ensures
        parse_table_spec(print_table(t.rows)) == Ok::<Seq<RowView>, ConfigError>(t.rows),
{
    lemma_table_roundtrip(t.rows);
    assert(uniform_width(t.rows)) by {
        assert(forall|i: int|
            0 <= i < t.rows.len() ==> (#[trigger] t.rows[i]).transitions.len()
                == t.alphabet.len());
    }
}

} // verus!
