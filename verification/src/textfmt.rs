//! Plain-text building blocks shared by the table printer, the table
//! parser and the token emitter: decimal numerals, whitespace splitting and
//! line splitting, each as an executable function tied to a spec function.

use vstd::prelude::*;

verus! {

/// Whitespace inside a line: space, tab, and the other ASCII control
/// whitespace. The line feed itself separates lines, not fields.
pub open spec fn is_ws(b: u8) -> bool {
    b == 0x20 || (0x09 <= b && b <= 0x0d)
}

/// Executable test of `is_ws`.
pub fn byte_is_ws(b: u8) -> (r: bool)
    ensures
        r == is_ws(b),
{
    b == 0x20 || (0x09 <= b && b <= 0x0d)
}

/// The fields of `s` once `cur` holds the partial field read so far:
/// whitespace ends a field, everything else extends it.
pub open spec fn split_ws_acc(s: Seq<u8>, cur: Seq<u8>) -> Seq<Seq<u8>>
    decreases s.len(),
{
    if s.len() == 0 {
        if cur.len() == 0 {
            Seq::empty()
        } else {
            seq![cur]
        }
    } else if is_ws(s[0]) {
        if cur.len() == 0 {
            split_ws_acc(s.drop_first(), Seq::empty())
        } else {
            seq![cur] + split_ws_acc(s.drop_first(), Seq::empty())
        }
    } else {
        split_ws_acc(s.drop_first(), cur.push(s[0]))
    }
}

/// The whitespace-separated fields of `s`.
pub open spec fn split_ws(s: Seq<u8>) -> Seq<Seq<u8>> {
    split_ws_acc(s, Seq::empty())
}

/// The lines of `s` once `cur` holds the partial line read so far: a line
/// feed ends a line, and an unterminated last line still counts.
pub open spec fn split_lines_acc(s: Seq<u8>, cur: Seq<u8>) -> Seq<Seq<u8>>
    decreases s.len(),
{
    if s.len() == 0 {
        if cur.len() == 0 {
            Seq::empty()
        } else {
            seq![cur]
        }
    } else if s[0] == 0x0a {
        seq![cur] + split_lines_acc(s.drop_first(), Seq::empty())
    } else {
        split_lines_acc(s.drop_first(), cur.push(s[0]))
    }
}

/// The lines of `s`, without their line feeds; text after the last line
/// feed is a line of its own, and nothing follows the last line feed in a
/// terminated text.
pub open spec fn split_lines(s: Seq<u8>) -> Seq<Seq<u8>> {
    split_lines_acc(s, Seq::empty())
}

/// Split a byte string into its whitespace-separated fields.
pub fn fields_of(s: &Vec<u8>) -> (r: Vec<Vec<u8>>)
    ensures
        r.deep_view() == split_ws(s@),
        r@.len() == split_ws(s@).len(),
        forall|i: int| 0 <= i < r@.len() ==> (#[trigger] r@[i])@ == split_ws(s@)[i],
{
    let mut fields: Vec<Vec<u8>> = Vec::new();
    let mut cur: Vec<u8> = Vec::new();
    let mut i: usize = 0;
    proof {
        assert(s@.skip(0) =~= s@);
    }
    while i < s.len()
        invariant
            i <= s@.len(),
            split_ws(s@) == fields.deep_view() + split_ws_acc(s@.skip(i as int), cur@),
        decreases s@.len() - i,
    {
        let ghost suffix = s@.skip(i as int);
        assert(suffix[0] == s@[i as int]);
        proof {
            assert(suffix.drop_first() =~= s@.skip(i as int + 1));
        }
        let b = s[i];
        if byte_is_ws(b) {
            if cur.len() > 0 {
                let ghost pre = fields.deep_view();
                fields.push(cur);
                proof {
                    assert(fields.deep_view() =~~= pre.push(cur@));
                    assert(pre + (seq![cur@] + split_ws_acc(s@.skip(i as int + 1), Seq::empty()))
                        =~~= fields.deep_view() + split_ws_acc(
                        s@.skip(i as int + 1),
                        Seq::empty(),
                    ));
                }
                cur = Vec::new();
            } else {
                proof {
                    assert(cur@ =~= Seq::<u8>::empty());
                }
            }
        } else {
            cur.push(b);
        }
        i = i + 1;
    }
    proof {
        assert(s@.skip(i as int) =~= Seq::<u8>::empty());
    }
    if cur.len() > 0 {
        let ghost pre = fields.deep_view();
        fields.push(cur);
        proof {
            assert(fields.deep_view() =~~= pre.push(cur@));
            assert(pre + seq![cur@] =~~= fields.deep_view());
        }
    } else {
        proof {
            assert(fields.deep_view() + Seq::<Seq<u8>>::empty() =~~= fields.deep_view());
        }
    }
    proof {
        assert forall|j: int| 0 <= j < fields@.len() implies (#[trigger] fields@[j])@ == split_ws(
            s@,
        )[j] by {
            assert(fields@[j].deep_view() =~= fields@[j]@);
        }
    }
    fields
}

/// Split a byte string into its lines, dropping the line feeds.
pub fn lines_of(s: &Vec<u8>) -> (r: Vec<Vec<u8>>)
    ensures
        r.deep_view() == split_lines(s@),
        r@.len() == split_lines(s@).len(),
        forall|i: int| 0 <= i < r@.len() ==> (#[trigger] r@[i])@ == split_lines(s@)[i],
{
    let mut lines: Vec<Vec<u8>> = Vec::new();
    let mut cur: Vec<u8> = Vec::new();
    let mut i: usize = 0;
    proof {
        assert(s@.skip(0) =~= s@);
    }
    while i < s.len()
        invariant
            i <= s@.len(),
            split_lines(s@) == lines.deep_view() + split_lines_acc(s@.skip(i as int), cur@),
        decreases s@.len() - i,
    {
        let ghost suffix = s@.skip(i as int);
        assert(suffix[0] == s@[i as int]);
        proof {
            assert(suffix.drop_first() =~= s@.skip(i as int + 1));
        }
        let b = s[i];
        if b == 0x0a {
            let ghost pre = lines.deep_view();
            lines.push(cur);
            proof {
                assert(lines.deep_view() =~~= pre.push(cur@));
                assert(pre + (seq![cur@] + split_lines_acc(s@.skip(i as int + 1), Seq::empty()))
                    =~~= lines.deep_view() + split_lines_acc(
                    s@.skip(i as int + 1),
                    Seq::empty(),
                ));
            }
            cur = Vec::new();
        } else {
            cur.push(b);
        }
        i = i + 1;
    }
    proof {
        assert(s@.skip(i as int) =~= Seq::<u8>::empty());
    }
    if cur.len() > 0 {
        let ghost pre = lines.deep_view();
        lines.push(cur);
        proof {
            assert(lines.deep_view() =~~= pre.push(cur@));
            assert(pre + seq![cur@] =~~= lines.deep_view());
        }
    } else {
        proof {
            assert(lines.deep_view() + Seq::<Seq<u8>>::empty() =~~= lines.deep_view());
        }
    }
    proof {
        assert forall|j: int| 0 <= j < lines@.len() implies (#[trigger] lines@[j])@ == split_lines(
            s@,
        )[j] by {
            assert(lines@[j].deep_view() =~= lines@[j]@);
        }
    }
    lines
}

/// A decimal digit byte.
pub open spec fn is_dec_digit(b: u8) -> bool {
    0x30 <= b <= 0x39
}

/// Whether every byte of `s` is a decimal digit.
pub open spec fn all_dec_digits(s: Seq<u8>) -> bool {
    forall|i: int| 0 <= i < s.len() ==> is_dec_digit(#[trigger] s[i])
}

/// The decimal numeral of `n`, most significant digit first, no sign and no
/// leading zero.
pub open spec fn dec_digits(n: nat) -> Seq<u8>
    decreases n,
{
    if n < 10 {
        seq![(0x30 + n) as u8]
    } else {
        dec_digits(n / 10) + seq![(0x30 + n % 10) as u8]
    }
}

/// The number a digit string denotes.
pub open spec fn dec_value(s: Seq<u8>) -> nat
    decreases s.len(),
{
    if s.len() == 0 {
        0
    } else {
        dec_value(s.drop_last()) * 10 + (s.last() - 0x30) as nat
    }
}

/// What `u32` text parsing yields: the value of a non-empty all-digit
/// string that fits, nothing otherwise.
pub open spec fn parse_u32_spec(s: Seq<u8>) -> Option<u32> {
    if s.len() > 0 && all_dec_digits(s) && dec_value(s) <= u32::MAX {
        Some(dec_value(s) as u32)
    } else {
        None
    }
}

/// A numeral is non-empty, all digits, and denotes the number it was
/// printed from.
pub proof fn lemma_dec_digits_value(n: nat)
    ensures
        dec_digits(n).len() >= 1,
        all_dec_digits(dec_digits(n)),
        dec_value(dec_digits(n)) == n,
    decreases n,
{
    if n < 10 {
        let s = dec_digits(n);
        assert(s.drop_last() =~= Seq::<u8>::empty());
        assert(dec_value(Seq::<u8>::empty()) == 0);
        assert(s.last() == (0x30 + n) as u8);
        assert(dec_value(s) == 0 * 10 + ((0x30 + n) as u8 - 0x30) as nat);
        assert(dec_value(s) == n);
    } else {
        lemma_dec_digits_value(n / 10);
        let s = dec_digits(n);
        let hd = dec_digits(n / 10);
        assert(s.drop_last() =~= hd);
        assert(s.last() == (0x30 + n % 10) as u8);
        assert(dec_value(s) == dec_value(hd) * 10 + n % 10);
        assert(n / 10 * 10 + n % 10 == n) by {
            vstd::arithmetic::div_mod::lemma_fundamental_div_mod(n as int, 10);
        }
    }
}

/// The numeral of `n`, printable by executable code.
pub fn u32_to_decimal(n: u32) -> (r: Vec<u8>)
    ensures
        r@ == dec_digits(n as nat),
    decreases n,
{
    if n < 10 {
        let mut v: Vec<u8> = Vec::new();
        v.push(0x30 + (n as u8));
        proof {
            assert(v@ =~= dec_digits(n as nat));
        }
        v
    } else {
        let mut v = u32_to_decimal(n / 10);
        v.push(0x30 + ((n % 10) as u8));
        proof {
            assert(v@ =~= dec_digits((n / 10) as nat) + seq![(0x30 + (n as nat) % 10) as u8]);
        }
        v
    }
}

/// The numeral of a machine-sized count, printable by executable code.
pub fn usize_to_decimal(n: usize) -> (r: Vec<u8>)
    ensures
        r@ == dec_digits(n as nat),
    decreases n,
{
    if n < 10 {
        let mut v: Vec<u8> = Vec::new();
        v.push(0x30 + (n as u8));
        proof {
            assert(v@ =~= dec_digits(n as nat));
        }
        v
    } else {
        let mut v = usize_to_decimal(n / 10);
        v.push(0x30 + ((n % 10) as u8));
        proof {
            assert(v@ =~= dec_digits((n / 10) as nat) + seq![(0x30 + (n as nat) % 10) as u8]);
        }
        v
    }
}

proof fn lemma_dec_value_monotone(s: Seq<u8>, i: int, j: int)
    requires
        0 <= i <= j <= s.len(),
    ensures
        dec_value(s.take(i)) <= dec_value(s.take(j)),
    decreases j - i,
{
    if i < j {
        lemma_dec_value_monotone(s, i, j - 1);
        assert(s.take(j).drop_last() =~= s.take(j - 1));
    }
}

/// Parse a `u32` from decimal text: digits only, and the value must fit.
pub fn parse_u32(s: &Vec<u8>) -> (r: Option<u32>)
    ensures
        r == parse_u32_spec(s@),
{
    if s.len() == 0 {
        return None;
    }
    let mut value: u32 = 0;
    let mut i: usize = 0;
    proof {
        assert(s@.take(0) =~= Seq::<u8>::empty());
    }
    while i < s.len()
        invariant
            i <= s@.len(),
            all_dec_digits(s@.take(i as int)),
            value == dec_value(s@.take(i as int)),
        decreases s@.len() - i,
    {
        let b = s[i];
        if b < 0x30 || b > 0x39 {
            assert(!is_dec_digit(s@[i as int]));
            return None;
        }
        let d = (b - 0x30) as u32;
        let next = value as u64 * 10 + d as u64;
        proof {
            assert(s@.take(i + 1).drop_last() =~= s@.take(i as int));
            assert(s@.take(i + 1).last() == s@[i as int]);
        }
        if next > u32::MAX as u64 {
            proof {
                lemma_dec_value_monotone(s@, i + 1, s@.len() as int);
                assert(s@.take(s@.len() as int) =~= s@);
            }
            return None;
        }
        value = next as u32;
        i = i + 1;
    }
    proof {
        assert(s@.take(i as int) =~= s@);
    }
    Some(value)
}

/// A field of a printed line comes back from the splitter: splitting text
/// that starts with a non-empty whitespace-free field and one space yields
/// that field, then the fields of the rest.
pub proof fn lemma_split_ws_field(f: Seq<u8>, rest: Seq<u8>, cur: Seq<u8>)
    requires
        forall|i: int| 0 <= i < f.len() ==> !is_ws(#[trigger] f[i]),
    ensures
        split_ws_acc(f + seq![0x20u8] + rest, cur) == (if cur.len() + f.len() == 0 {
            split_ws_acc(rest, Seq::empty())
        } else {
            seq![cur + f] + split_ws_acc(rest, Seq::empty())
        }),
    decreases f.len(),
{
    let s = f + seq![0x20u8] + rest;
    if f.len() == 0 {
        assert(s[0] == 0x20);
        assert(s.drop_first() =~= rest);
        if cur.len() != 0 {
            assert(cur + f =~= cur);
        }
    } else {
        assert(s[0] == f[0]);
        assert(!is_ws(s[0]));
        assert(s.drop_first() =~= f.drop_first() + seq![0x20u8] + rest);
        lemma_split_ws_field(f.drop_first(), rest, cur.push(f[0]));
        assert(cur.push(f[0]) + f.drop_first() =~= cur + f);
    }
}

/// A line of printed text comes back from the line splitter: splitting text
/// that starts with a feed-free line and one line feed yields that line,
/// then the lines of the rest.
pub proof fn lemma_split_lines_line(l: Seq<u8>, rest: Seq<u8>, cur: Seq<u8>)
    requires
        forall|i: int| 0 <= i < l.len() ==> #[trigger] l[i] != 0x0a,
    ensures
        split_lines_acc(l + seq![0x0au8] + rest, cur) == seq![cur + l] + split_lines_acc(
            rest,
            Seq::empty(),
        ),
    decreases l.len(),
{
    let s = l + seq![0x0au8] + rest;
    if l.len() == 0 {
        assert(s[0] == 0x0a);
        assert(s.drop_first() =~= rest);
        assert(cur + l =~= cur);
    } else {
        assert(s[0] == l[0]);
        assert(s[0] != 0x0a);
        assert(s.drop_first() =~= l.drop_first() + seq![0x0au8] + rest);
        lemma_split_lines_line(l.drop_first(), rest, cur.push(l[0]));
        assert(cur.push(l[0]) + l.drop_first() =~= cur + l);
    }
}

} // verus!
