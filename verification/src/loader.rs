//! The scanner-definition format: the first line with any content is the
//! codec-encoded alphabet, and every later line with content names a
//! transition-table path, a token id, and an optional fixed token value.

use vstd::prelude::*;
use crate::codec::{decode, decode_bytes};
use crate::table::ConfigError;
use crate::textfmt::{fields_of, is_ws, lines_of, split_lines, split_ws};

verus! {

/// One parsed scanner-definition entry: where its transition table lives,
/// the token id it emits, and the optional fixed token value.
#[derive(Debug, Clone, PartialEq, Eq)]
pub struct ScannerEntry {
    pub tt_path: Vec<u8>,
    pub token_id: Vec<u8>,
    pub token_value: Option<Vec<u8>>,
}

/// The mathematical content of an entry.
#[verifier::ext_equal]
pub ghost struct EntryModel {
    pub tt_path: Seq<u8>,
    pub token_id: Seq<u8>,
    pub token_value: Option<Seq<u8>>,
}

/// A line with its whitespace removed.
pub open spec fn strip_ws(s: Seq<u8>) -> Seq<u8>
    decreases s.len(),
{
    if s.len() == 0 {
        s
    } else if is_ws(s.last()) {
        strip_ws(s.drop_last())
    } else {
        strip_ws(s.drop_last()).push(s.last())
    }
}

/// What one definition line's fields mean: nothing for a blank line, an
/// entry for two or three fields, an error otherwise.
pub open spec fn entry_of_fields(fs: Seq<Seq<u8>>) -> Result<Option<EntryModel>, ConfigError> {
    if fs.len() == 0 {
        Ok(None)
    } else if fs.len() == 2 {
        Ok(Some(EntryModel { tt_path: fs[0], token_id: fs[1], token_value: None }))
    } else if fs.len() == 3 {
        Ok(Some(EntryModel { tt_path: fs[0], token_id: fs[1], token_value: Some(fs[2]) }))
    } else {
        Err(ConfigError::MalformedScannerLine)
    }
}

/// What the entry lines mean, blank lines ignored, or the error met first.
pub open spec fn entries_spec(ls: Seq<Seq<u8>>) -> Result<Seq<EntryModel>, ConfigError>
    decreases ls.len(),
{
    if ls.len() == 0 {
        Ok(Seq::empty())
    } else {
        match entry_of_fields(split_ws(ls[0])) {
            Err(e) => Err(e),
            Ok(None) => entries_spec(ls.drop_first()),
            Ok(Some(m)) => match entries_spec(ls.drop_first()) {
                Err(e) => Err(e),
                Ok(rest) => Ok(seq![m] + rest),
            },
        }
    }
}

/// What an alphabet line means: its whitespace-free remainder decoded,
/// refused when the decode fails or a byte repeats.
pub open spec fn alphabet_spec(line: Seq<u8>) -> Result<Seq<u8>, ConfigError> {
    match decode_bytes(strip_ws(line)) {
        Err(e) => Err(ConfigError::AlphabetDecode { err: e }),
        Ok(alpha) => if alpha.no_duplicates() {
            Ok(alpha)
        } else {
            Err(ConfigError::DuplicateAlphabetByte { byte: 0 })
        },
    }
}

/// What a whole scanner-definition text means: the alphabet from the first
/// line with content, then the entries of the lines after it.
pub open spec fn scanner_def_spec(ls: Seq<Seq<u8>>) -> Result<
    (Seq<u8>, Seq<EntryModel>),
    ConfigError,
>
    decreases ls.len(),
{
    if ls.len() == 0 {
        Err(ConfigError::MissingAlphabet)
    } else if strip_ws(ls[0]).len() == 0 {
        scanner_def_spec(ls.drop_first())
    } else {
        match alphabet_spec(ls[0]) {
            Err(e) => Err(e),
            Ok(alpha) => match entries_spec(ls.drop_first()) {
                Err(e) => Err(e),
                Ok(es) => Ok((alpha, es)),
            },
        }
    }
}

/// The line the alphabet is read from: the first with any content.
pub open spec fn alphabet_line(ls: Seq<Seq<u8>>) -> Seq<u8>
    decreases ls.len(),
{
    if ls.len() == 0 {
        Seq::empty()
    } else if strip_ws(ls[0]).len() == 0 {
        alphabet_line(ls.drop_first())
    } else {
        ls[0]
    }
}

/// Remove the whitespace from a line.
fn strip_line(line: &Vec<u8>) -> (r: Vec<u8>)
    ensures
        r@ == strip_ws(line@),
{
    let mut out: Vec<u8> = Vec::new();
    let mut i: usize = 0;
    proof {
        assert(line@.take(0) =~= Seq::<u8>::empty());
        assert(strip_ws(line@.take(0)) =~= Seq::<u8>::empty());
    }
    while i < line.len()
        invariant
            i <= line@.len(),
            out@ == strip_ws(line@.take(i as int)),
        decreases line@.len() - i,
    {
        let b = line[i];
        proof {
            assert(line@.take(i + 1).drop_last() =~= line@.take(i as int));
            assert(line@.take(i + 1).last() == line@[i as int]);
        }
        if !crate::textfmt::byte_is_ws(b) {
            out.push(b);
        }
        i = i + 1;
    }
    proof {
        assert(line@.take(i as int) =~= line@);
    }
    out
}

/// Decode an alphabet line: strip its whitespace, decode the remainder,
/// and refuse a repeated byte, since the alphabet indexes columns.
pub fn parse_alphabet(line: &Vec<u8>) -> (r: Result<Vec<u8>, ConfigError>)
    ensures
        (match alphabet_spec(line@) {
            Ok(alpha) => r is Ok && r->Ok_0@ == alpha,
            Err(e) => r is Err && ((r->Err_0 == e) || (r->Err_0 matches
                ConfigError::DuplicateAlphabetByte { .. } && e matches
                ConfigError::DuplicateAlphabetByte { .. })),
        }),
        (r matches Err(ConfigError::DuplicateAlphabetByte { byte }) ==> exists|i: int, j: int|
            0 <= i < j < decode_bytes(strip_ws(line@))->Ok_0.len() && decode_bytes(
                strip_ws(line@),
            )->Ok_0[i] == byte && decode_bytes(strip_ws(line@))->Ok_0[j] == byte),
{
    let stripped = strip_line(line);
    let alpha = match decode(&stripped) {
        Ok(a) => a,
        Err(e) => {
            return Err(ConfigError::AlphabetDecode { err: e });
        },
    };
    let mut j: usize = 1;
    while j < alpha.len()
        invariant
            1 <= j,
            alpha@ == decode_bytes(strip_ws(line@))->Ok_0,
            decode_bytes(strip_ws(line@)) is Ok,
            forall|x: int, y: int| 0 <= x < y < j && y < alpha@.len() ==> alpha@[x] != alpha@[y],
        decreases alpha@.len() - j,
    {
        let mut x: usize = 0;
        while x < j
            invariant
                x <= j < alpha@.len(),
                alpha@ == decode_bytes(strip_ws(line@))->Ok_0,
                decode_bytes(strip_ws(line@)) is Ok,
                forall|y: int| 0 <= y < x ==> alpha@[y] != alpha@[j as int],
            decreases j - x,
        {
            if alpha[x] == alpha[j] {
                proof {
                    assert(!alpha@.no_duplicates());
                }
                return Err(ConfigError::DuplicateAlphabetByte { byte: alpha[j] });
            }
            x = x + 1;
        }
        j = j + 1;
    }
    proof {
        assert forall|x: int, y: int|
            0 <= x < alpha@.len() && 0 <= y < alpha@.len() && x != y implies alpha@[x]
            != alpha@[y] by {
            if x < y {
                assert(alpha@[x] != alpha@[y]);
            } else {
                assert(alpha@[y] != alpha@[x]);
            }
        }
        assert(alpha@.no_duplicates());
    }
    Ok(alpha)
}

/// Parse one definition line: nothing for a blank line, else the
/// transition-table path, the token id, and an optional fixed value.
pub fn parse_scanner_line(line: &Vec<u8>) -> (r: Result<Option<ScannerEntry>, ConfigError>)
    ensures
        (match entry_of_fields(split_ws(line@)) {
            Ok(None) => r == Ok::<Option<ScannerEntry>, ConfigError>(None),
            Ok(Some(m)) => r is Ok && r->Ok_0 is Some && ({
                let e = r->Ok_0->0;
                &&& e.tt_path@ == m.tt_path
                &&& e.token_id@ == m.token_id
                &&& (match (e.token_value, m.token_value) {
                    (Some(a), Some(b)) => a@ == b,
                    (None, None) => true,
                    _ => false,
                })
            }),
            Err(e) => r is Err && r->Err_0 == e,
        }),
{
    let mut fields = fields_of(line);
    if fields.len() == 0 {
        return Ok(None);
    }
    if fields.len() != 2 && fields.len() != 3 {
        return Err(ConfigError::MalformedScannerLine);
    }
    let tt_path = fields.remove(0);
    let token_id = fields.remove(0);
    let token_value: Option<Vec<u8>> = if fields.len() > 0 {
        Some(fields.remove(0))
    } else {
        None
    };
    Ok(Some(ScannerEntry { tt_path, token_id, token_value }))
}

/// Whether parsed entries carry what their models hold.
pub open spec fn entries_match(es: Seq<ScannerEntry>, ms: Seq<EntryModel>) -> bool {
    &&& es.len() == ms.len()
    &&& forall|i: int|
        0 <= i < es.len() ==> {
            &&& (#[trigger] es[i]).tt_path@ == ms[i].tt_path
            &&& es[i].token_id@ == ms[i].token_id
            &&& (match (es[i].token_value, ms[i].token_value) {
                (Some(a), Some(b)) => a@ == b,
                (None, None) => true,
                _ => false,
            })
        }
}

/// Parse a whole scanner-definition text: the first line with content is
/// the codec-encoded alphabet, and each later line with content is one
/// recognizer entry.
pub fn parse_scanner_definition(text: &Vec<u8>) -> (r: Result<
    (Vec<u8>, Vec<ScannerEntry>),
    ConfigError,
>)
    ensures
        (match scanner_def_spec(split_lines(text@)) {
            Ok((alpha, ms)) => r is Ok && r->Ok_0.0@ == alpha && entries_match(r->Ok_0.1@, ms),
            Err(e) => r is Err && ((r->Err_0 == e) || (r->Err_0 matches
                ConfigError::DuplicateAlphabetByte { .. } && e matches
                ConfigError::DuplicateAlphabetByte { .. })),
        }),
        (r matches Err(ConfigError::DuplicateAlphabetByte { byte }) ==> ({
            let alpha = decode_bytes(strip_ws(alphabet_line(split_lines(text@))))->Ok_0;
            exists|i: int, j: int| 0 <= i < j < alpha.len() && alpha[i] == byte && alpha[j] == byte
        })),
{
    let ghost ls = split_lines(text@);
    let lines = lines_of(text);
    let mut li: usize = 0;
    proof {
        assert(ls.skip(0) =~= ls);
    }
    // the first line with content is the alphabet
    let alphabet: Vec<u8>;
    loop
        invariant
            li <= lines@.len(),
            ls == split_lines(text@),
            lines@.len() == ls.len(),
            forall|j: int| 0 <= j < lines@.len() ==> (#[trigger] lines@[j])@ == ls[j],
            scanner_def_spec(ls) == scanner_def_spec(ls.skip(li as int)),
            alphabet_line(ls) == alphabet_line(ls.skip(li as int)),
        ensures
            li < lines@.len(),
            strip_ws(ls[li as int]).len() > 0,
            scanner_def_spec(ls) == scanner_def_spec(ls.skip(li as int)),
            alphabet_line(ls) == ls[li as int],
            li <= lines@.len(),
            ls == split_lines(text@),
            lines@.len() == ls.len(),
            forall|j: int| 0 <= j < lines@.len() ==> (#[trigger] lines@[j])@ == ls[j],
        decreases lines@.len() - li,
    {
        if li >= lines.len() {
            proof {
                assert(ls.skip(li as int) =~= Seq::<Seq<u8>>::empty());
            }
            return Err(ConfigError::MissingAlphabet);
        }
        let stripped = strip_line(&lines[li]);
        proof {
            assert(ls.skip(li as int)[0] == ls[li as int]);
            assert(ls.skip(li as int).drop_first() =~= ls.skip(li as int + 1));
        }
        if stripped.len() > 0 {
            break ;
        }
        li = li + 1;
    }
    let alpha = match parse_alphabet(&lines[li]) {
        Ok(a) => a,
        Err(e) => {
            proof {
                assert(ls.skip(li as int)[0] == ls[li as int]);
            }
            return Err(e);
        },
    };
    proof {
        assert(ls.skip(li as int)[0] == ls[li as int]);
        assert(ls.skip(li as int).drop_first() =~= ls.skip(li as int + 1));
    }
    alphabet = alpha;

    // every later line with content is one entry
    let n_lines = lines.len();
    assert(li < n_lines);
    let mut entries: Vec<ScannerEntry> = Vec::new();
    let ghost mut done: Seq<EntryModel> = Seq::empty();
    let mut ei: usize = li + 1;
    proof {
        if entries_spec(ls.skip(li as int + 1)) is Ok {
            assert(done + entries_spec(ls.skip(li as int + 1))->Ok_0 =~= entries_spec(
                ls.skip(li as int + 1),
            )->Ok_0);
        }
    }
    while ei < lines.len()
        invariant
            li + 1 <= ei <= lines@.len(),
            ls == split_lines(text@),
            lines@.len() == ls.len(),
            forall|j: int| 0 <= j < lines@.len() ==> (#[trigger] lines@[j])@ == ls[j],
            entries_match(entries@, done),
            (match entries_spec(ls.skip(li as int + 1)) {
                Ok(ms) => scanner_def_spec(ls) == Ok::<(Seq<u8>, Seq<EntryModel>), ConfigError>(
                    (alphabet@, ms),
                ),
                Err(e) => scanner_def_spec(ls) == Err::<(Seq<u8>, Seq<EntryModel>), ConfigError>(
                    e,
                ),
            }),
            entries_spec(ls.skip(li as int + 1)) == (match entries_spec(ls.skip(ei as int)) {
                Ok(rest) => Ok::<Seq<EntryModel>, ConfigError>(done + rest),
                Err(e) => Err(e),
            }),
        decreases lines@.len() - ei,
    {
        proof {
            assert(ls.skip(ei as int)[0] == ls[ei as int]);
            assert(ls.skip(ei as int).drop_first() =~= ls.skip(ei as int + 1));
        }
        match parse_scanner_line(&lines[ei]) {
            Ok(None) => {},
            Ok(Some(entry)) => {
                let ghost m = entry_of_fields(split_ws(ls[ei as int]))->Ok_0->0;
                let ghost done_pre = done;
                entries.push(entry);
                proof {
                    done = done + seq![m];
                    let tail = entries_spec(ls.skip(ei as int + 1));
                    if tail is Ok {
                        assert(done_pre + (seq![m] + tail->Ok_0) =~= done + tail->Ok_0);
                    }
                }
            },
            Err(e) => {
                return Err(e);
            },
        }
        ei = ei + 1;
    }
    proof {
        assert(ls.skip(ei as int) =~= Seq::<Seq<u8>>::empty());
        assert(done + Seq::<EntryModel>::empty() =~= done);
    }
    Ok((alphabet, entries))
}

} // verus!
