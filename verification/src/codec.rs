//! The intermediate-file format: a length-prefixed text encoding of a
//! record array, with a decoder proved to invert the encoder.
//!
//! Each record is written as the decimal character count of its key, a
//! space, the decimal character count of its value, a space, the key,
//! the value, and a newline.  The two counts make the parse
//! unambiguous whatever characters the key and value hold.

use vstd::prelude::*;
use vstd::string::{StrSliceExecFns, StringExecFns};
use crate::kv::{KeyValue, KvView, views_of};

verus! {

/// Decoding failure: the text is not an encoding of any record array.
#[derive(Clone, Copy, PartialEq, Eq, Structural, Debug)]
pub struct CodecError;

pub open spec fn is_digit(c: char) -> bool {
    48 <= c as u32 <= 57
}

pub open spec fn digit_val(c: char) -> nat {
    ((c as u32) - 48) as nat
}

pub open spec fn digit_char(d: int) -> char {
    if d == 0 {
        '0'
    } else if d == 1 {
        '1'
    } else if d == 2 {
        '2'
    } else if d == 3 {
        '3'
    } else if d == 4 {
        '4'
    } else if d == 5 {
        '5'
    } else if d == 6 {
        '6'
    } else if d == 7 {
        '7'
    } else if d == 8 {
        '8'
    } else {
        '9'
    }
}

/// The decimal digits of `n`, most significant first.
pub open spec fn dec_digits(n: nat) -> Seq<char>
    decreases n,
{
    if n < 10 {
        seq![digit_char(n as int)]
    } else {
        dec_digits(n / 10).push(digit_char((n % 10) as int))
    }
}

/// The number written by a digit string, most significant first.
pub open spec fn digits_val(s: Seq<char>) -> nat
    decreases s.len(),
{
    if s.len() == 0 {
        0
    } else {
        digits_val(s.drop_last()) * 10 + digit_val(s.last())
    }
}

/// The count of leading digit characters.
pub open spec fn digit_span(s: Seq<char>) -> nat
    decreases s.len(),
{
    if s.len() == 0 {
        0
    } else if !is_digit(s[0]) {
        0
    } else {
        1 + digit_span(s.drop_first())
    }
}

/// One encoded record.
pub open spec fn encode_kv(kv: KvView) -> Seq<char> {
    dec_digits(kv.0.len()) + seq![' '] + dec_digits(kv.1.len()) + seq![' '] + kv.0 + kv.1
        + seq!['\n']
}

/// An encoded record array: the records in order, nothing else.
pub open spec fn encode_records(rs: Seq<KvView>) -> Seq<char>
    decreases rs.len(),
{
    if rs.len() == 0 {
        Seq::empty()
    } else {
        encode_kv(rs[0]) + encode_records(rs.drop_first())
    }
}

/// The record array written in `s`, or nothing if `s` is not an
/// encoding.  Parsing is driven by the two length prefixes alone.
pub open spec fn spec_decode(s: Seq<char>) -> Option<Seq<KvView>>
    decreases s.len(),
{
    if s.len() == 0 {
        Some(Seq::empty())
    } else {
        let d1 = digit_span(s) as int;
        if d1 == 0 || d1 >= s.len() || s[d1] != ' ' {
            None
        } else {
            let klen = digits_val(s.take(d1)) as int;
            let r1 = s.skip(d1 + 1);
            let d2 = digit_span(r1) as int;
            if d2 == 0 || d2 >= r1.len() || r1[d2] != ' ' {
                None
            } else {
                let vlen = digits_val(r1.take(d2)) as int;
                let r2 = r1.skip(d2 + 1);
                if r2.len() < klen + vlen + 1 || r2[klen + vlen] != '\n' {
                    None
                } else {
                    let key = r2.take(klen);
                    let value = r2.subrange(klen, klen + vlen);
                    let rest = r2.skip(klen + vlen + 1);
                    match spec_decode(rest) {
                        Option::None => None,
                        Option::Some(tail) => Some(seq![(key, value)] + tail),
                    }
                }
            }
        }
    }
}

/// The decimal digits of `n` are digits, start with no excess, and
/// read back as `n`.
pub proof fn lemma_dec_digits(n: nat)
    ensures
        dec_digits(n).len() >= 1,
        forall|i: int| 0 <= i < dec_digits(n).len() ==> is_digit(#[trigger] dec_digits(n)[i]),
        digits_val(dec_digits(n)) == n,
    decreases n,
{
    if n < 10 {
        assert(digit_val(digit_char(n as int)) == n);
        let single = seq![digit_char(n as int)];
        assert(digits_val(Seq::<char>::empty()) == 0);
        assert(single.drop_last() =~= Seq::<char>::empty());
        assert(single.last() == digit_char(n as int));
        assert(digits_val(single) == n);
    } else {
        lemma_dec_digits(n / 10);
        let d = dec_digits(n / 10);
        let whole = d.push(digit_char((n % 10) as int));
        assert(whole.drop_last() =~= d);
        assert(whole.last() == digit_char((n % 10) as int));
        assert(digit_val(digit_char((n % 10) as int)) == n % 10);
        assert(digits_val(whole) == (n / 10) * 10 + n % 10);
        assert((n / 10) * 10 + n % 10 == n) by (nonlinear_arith);
        assert forall|i: int| 0 <= i < whole.len() implies is_digit(#[trigger] whole[i]) by {
            if i < d.len() {
                assert(whole[i] == d[i]);
            }
        }
    }
}

/// A digit string followed by a non-digit scans as exactly its length.
pub proof fn lemma_digit_span_prefix(a: Seq<char>, b: Seq<char>)
    requires
        forall|i: int| 0 <= i < a.len() ==> is_digit(#[trigger] a[i]),
        b.len() > 0,
        !is_digit(b[0]),
    ensures
        digit_span(a + b) == a.len(),
    decreases a.len(),
{
    if a.len() == 0 {
        assert(a + b =~= b);
    } else {
        assert((a + b)[0] == a[0]);
        assert((a + b).drop_first() =~= a.drop_first() + b);
        lemma_digit_span_prefix(a.drop_first(), b);
    }
}

/// Appending a record extends its encoding on the right.
pub proof fn lemma_encode_append(rs: Seq<KvView>, x: KvView)
    ensures
        encode_records(rs.push(x)) == encode_records(rs) + encode_kv(x),
    decreases rs.len(),
{
    if rs.len() == 0 {
        assert(rs.push(x)[0] == x);
        assert(rs.push(x).drop_first() =~= Seq::<KvView>::empty());
        assert(encode_records(rs.push(x)) == encode_kv(x) + encode_records(
            Seq::<KvView>::empty(),
        ));
        assert(encode_kv(x) + Seq::<char>::empty() =~= encode_kv(x));
        assert(encode_records(rs) + encode_kv(x) =~= encode_kv(x));
    } else {
        assert(rs.push(x).drop_first() =~= rs.drop_first().push(x));
        lemma_encode_append(rs.drop_first(), x);
        assert(encode_records(rs.push(x)) =~= encode_kv(rs[0]) + (encode_records(rs.drop_first())
            + encode_kv(x)));
        assert(encode_kv(rs[0]) + (encode_records(rs.drop_first()) + encode_kv(x)) =~= (encode_kv(
            rs[0],
        ) + encode_records(rs.drop_first())) + encode_kv(x));
    }
}

/// A longer digit prefix never reads back as a smaller number.
pub proof fn lemma_digits_val_monotone(s: Seq<char>, i: int, j: int)
    requires
        0 <= i <= j <= s.len(),
    ensures
        digits_val(s.take(j)) >= digits_val(s.take(i)),
    decreases j - i,
{
    if i < j {
        lemma_digits_val_monotone(s, i, j - 1);
        let t = s.take(j);
        assert(t.drop_last() =~= s.take(j - 1));
        assert(digits_val(t) == digits_val(s.take(j - 1)) * 10 + digit_val(t.last()));
        assert(digits_val(s.take(j - 1)) * 10 >= digits_val(s.take(j - 1))) by (nonlinear_arith)
            requires
                digits_val(s.take(j - 1)) >= 0,
        ;
    }
}

/// Decoding one encoded record followed by decodable text peels off
/// exactly that record.
#[verifier::spinoff_prover]
#[verifier::rlimit(100)]
pub proof fn lemma_decode_one(kv: KvView, rest: Seq<char>, tailv: Seq<KvView>)
    requires
        spec_decode(rest) == Some(tailv),
    ensures
        spec_decode(encode_kv(kv) + rest) == Some(seq![kv] + tailv),
{
    let klen = kv.0.len();
    let vlen = kv.1.len();
    let d1s = dec_digits(klen);
    let d2s = dec_digits(vlen);
    let body = kv.0 + kv.1 + seq!['\n'];
    let s = encode_kv(kv) + rest;
    lemma_dec_digits(klen);
    lemma_dec_digits(vlen);

    let tail1 = seq![' '] + d2s + seq![' '] + body + rest;
    assert(s =~= d1s + tail1);
    assert(!is_digit(tail1[0]));
    lemma_digit_span_prefix(d1s, tail1);
    let d1 = digit_span(s) as int;
    assert(d1 == d1s.len());
    assert(s.len() > d1);
    assert(s[d1] == tail1[0]);
    assert(s[d1] == ' ');
    assert(s.take(d1) =~= d1s);
    assert(digits_val(s.take(d1)) == klen);

    let r1 = s.skip(d1 + 1);
    let tail2 = seq![' '] + body + rest;
    assert(r1 =~= d2s + tail2);
    assert(!is_digit(tail2[0]));
    lemma_digit_span_prefix(d2s, tail2);
    let d2 = digit_span(r1) as int;
    assert(d2 == d2s.len());
    assert(r1.len() > d2);
    assert(r1[d2] == tail2[0]);
    assert(r1[d2] == ' ');
    assert(r1.take(d2) =~= d2s);
    assert(digits_val(r1.take(d2)) == vlen);

    let r2 = r1.skip(d2 + 1);
    assert(r2 =~= body + rest);
    assert(r2.len() == klen + vlen + 1 + rest.len());
    assert(r2[klen as int + vlen as int] == '\n');
    assert(r2.take(klen as int) =~= kv.0);
    assert(r2.subrange(klen as int, klen as int + vlen as int) =~= kv.1);
    assert(r2.skip(klen as int + vlen as int + 1) =~= rest);
    assert((kv.0, kv.1) == kv);
    assert(spec_decode(s) == Some(seq![kv] + tailv));
}

/// Every character a digit scan accepts is a digit.
pub proof fn lemma_digit_span_digits(s: Seq<char>)
    ensures
        digit_span(s) <= s.len(),
        forall|j: int| 0 <= j < digit_span(s) ==> is_digit(#[trigger] s[j]),
    decreases s.len(),
{
    if s.len() == 0 {
    } else if !is_digit(s[0]) {
    } else {
        lemma_digit_span_digits(s.drop_first());
        assert forall|j: int| 0 <= j < digit_span(s) implies is_digit(#[trigger] s[j]) by {
            if j > 0 {
                assert(s[j] == s.drop_first()[j - 1]);
            }
        }
    }
}

/// Round trip: decoding an encoded record array yields exactly the
/// records that were encoded.
pub proof fn lemma_codec_round_trip(rs: Seq<KvView>)
    ensures
        spec_decode(encode_records(rs)) == Some(rs),
    decreases rs.len(),
{
    if rs.len() == 0 {
        assert(encode_records(rs) =~= Seq::<char>::empty());
        assert(rs =~= Seq::<KvView>::empty());
    } else {
        lemma_codec_round_trip(rs.drop_first());
        lemma_decode_one(rs[0], encode_records(rs.drop_first()), rs.drop_first());
        assert(seq![rs[0]] + rs.drop_first() =~= rs);
    }
}

fn digit_str(d: usize) -> (r: &'static str)
    requires
        d < 10,
    ensures
        r@ == seq![digit_char(d as int)],
{
    proof {
        reveal_strlit("0");
        reveal_strlit("1");
        reveal_strlit("2");
        reveal_strlit("3");
        reveal_strlit("4");
        reveal_strlit("5");
        reveal_strlit("6");
        reveal_strlit("7");
        reveal_strlit("8");
        reveal_strlit("9");
        assert(seq![digit_char(d as int)].len() == 1);
    }
    match d {
        0 => "0",
        1 => "1",
        2 => "2",
        3 => "3",
        4 => "4",
        5 => "5",
        6 => "6",
        7 => "7",
        8 => "8",
        _ => "9",
    }
}

/// Appends the decimal digits of `n`.
pub(crate) fn push_dec(out: &mut String, n: usize)
    ensures
        final(out)@ == old(out)@ + dec_digits(n as nat),
    decreases n,
{
    let ghost base = out@;
    if n >= 10 {
        push_dec(out, n / 10);
    }
    let d = digit_str(n % 10);
    out.append(d);
    proof {
        if n < 10 {
            assert(out@ =~= base + dec_digits(n as nat));
        } else {
            assert(dec_digits(n as nat) == dec_digits(n as nat / 10).push(
                digit_char((n as nat % 10) as int),
            ));
            assert(out@ =~= base + dec_digits(n as nat));
        }
    }
}

/// Serializes a record array into the intermediate-file text.
pub fn encode_records_str(records: &Vec<KeyValue>) -> (r: String)
    ensures
        r@ == encode_records(views_of(records@)),
{
    let mut out = String::new();
    let mut i: usize = 0;
    proof {
        assert(views_of(records@.subrange(0, 0)) =~= Seq::<KvView>::empty());
    }
    while i < records.len()
        invariant
            i <= records@.len(),
            out@ == encode_records(views_of(records@.subrange(0, i as int))),
        decreases records@.len() - i,
    {
        let ghost base = out@;
        let ghost prefix = views_of(records@.subrange(0, i as int));
        let kv = &records[i];
        let klen = kv.key.as_str().unicode_len();
        let vlen = kv.value.as_str().unicode_len();
        push_dec(&mut out, klen);
        out.append(" ");
        push_dec(&mut out, vlen);
        out.append(" ");
        out.append(kv.key.as_str());
        out.append(kv.value.as_str());
        out.append("\n");
        proof {
            reveal_strlit(" ");
            reveal_strlit("\n");
            assert(" "@ =~= seq![' ']);
            assert("\n"@ =~= seq!['\n']);
            lemma_encode_append(prefix, records@[i as int]@);
            assert(out@ =~= base + encode_kv(records@[i as int]@));
            assert(views_of(records@.subrange(0, i as int + 1)) =~= prefix.push(
                records@[i as int]@,
            ));
        }
        i = i + 1;
    }
    proof {
        assert(records@.subrange(0, records@.len() as int) =~= records@);
    }
    out
}

/// Counts the leading digit characters.
fn scan_digits(s: &str) -> (d: usize)
    ensures
        d as nat == digit_span(s@),
        forall|j: int| 0 <= j < d ==> is_digit(#[trigger] s@[j]),
        d as nat <= s@.len(),
{
    let n = s.unicode_len();
    let mut i: usize = 0;
    proof {
        assert(s@.skip(0) =~= s@);
        lemma_digit_span_digits(s@);
    }
    while i < n
        invariant
            i <= n,
            n == s@.len(),
            digit_span(s@) == i + digit_span(s@.skip(i as int)),
            forall|j: int| 0 <= j < i ==> is_digit(#[trigger] s@[j]),
        decreases n - i,
    {
        let c = s.get_char(i);
        let u = c as u32;
        if !(48 <= u && u <= 57) {
            proof {
                assert(s@.skip(i as int)[0] == s@[i as int]);
                assert(digit_span(s@.skip(i as int)) == 0);
            }
            return i;
        }
        proof {
            assert(s@.skip(i as int)[0] == s@[i as int]);
            assert(s@.skip(i as int).drop_first() =~= s@.skip(i as int + 1));
        }
        i = i + 1;
    }
    proof {
        assert(s@.skip(n as int) =~= Seq::<char>::empty());
    }
    i
}

/// Reads the number written by the first `d` characters, which must
/// all be digits; reports when it does not fit the machine word.
fn parse_num(s: &str, d: usize) -> (r: Option<usize>)
    requires
        d as nat <= s@.len(),
        forall|j: int| 0 <= j < d ==> is_digit(#[trigger] s@[j]),
    ensures
        r matches Some(v) ==> v as nat == digits_val(s@.take(d as int)),
        r is None ==> digits_val(s@.take(d as int)) > usize::MAX,
{
    let mut val: usize = 0;
    let mut i: usize = 0;
    proof {
        assert(s@.take(0) =~= Seq::<char>::empty());
    }
    while i < d
        invariant
            i <= d,
            d as nat <= s@.len(),
            forall|j: int| 0 <= j < d ==> is_digit(#[trigger] s@[j]),
            val as nat == digits_val(s@.take(i as int)),
        decreases d - i,
    {
        let c = s.get_char(i);
        let u = c as u32;
        let dv = (u - 48) as usize;
        proof {
            assert(s@.take(i as int + 1).drop_last() =~= s@.take(i as int));
            assert(s@.take(i as int + 1).last() == s@[i as int]);
            assert(dv as nat == digit_val(s@[i as int]));
        }
        let step = match val.checked_mul(10) {
            Some(x) => x.checked_add(dv),
            None => None,
        };
        match step {
            Some(y) => {
                val = y;
            },
            None => {
                proof {
                    assert(digits_val(s@.take(i as int + 1)) > usize::MAX);
                    lemma_digits_val_monotone(s@, i as int + 1, d as int);
                }
                return None;
            },
        }
        i = i + 1;
    }
    Some(val)
}

/// Deserializes intermediate-file text, succeeding exactly on the
/// texts that encode some record array and returning that array.
#[verifier::rlimit(100)]
pub fn decode_records_str(s: &str) -> (r: Result<Vec<KeyValue>, CodecError>)
    ensures
        r matches Ok(v) ==> spec_decode(s@) == Some(views_of(v@)),
        r is Err ==> spec_decode(s@) is None,
    decreases s@.len(),
{
    let n = s.unicode_len();
    if n == 0 {
        let empty: Vec<KeyValue> = Vec::new();
        proof {
            assert(views_of(empty@) =~= Seq::<KvView>::empty());
        }
        return Ok(empty);
    }
    let d1 = scan_digits(s);
    if d1 == 0 || d1 >= n {
        return Err(CodecError);
    }
    if s.get_char(d1) != ' ' {
        return Err(CodecError);
    }
    let klen = match parse_num(s, d1) {
        Some(k) => k,
        None => {
            proof {
                lemma_spec_decode_huge_key(s@);
            }
            return Err(CodecError);
        },
    };
    let s1 = s.substring_char(d1 + 1, n);
    let ghost r1 = s@.skip(d1 as int + 1);
    proof {
        assert(s1@ =~= r1);
    }
    let n1 = n - (d1 + 1);
    let d2 = scan_digits(s1);
    if d2 == 0 || d2 >= n1 {
        return Err(CodecError);
    }
    if s1.get_char(d2) != ' ' {
        return Err(CodecError);
    }
    let vlen = match parse_num(s1, d2) {
        Some(v) => v,
        None => {
            proof {
                lemma_spec_decode_huge_value(s@);
            }
            return Err(CodecError);
        },
    };
    let s2 = s1.substring_char(d2 + 1, n1);
    let ghost r2 = r1.skip(d2 as int + 1);
    proof {
        assert(s2@ =~= r2);
    }
    let n2 = n1 - (d2 + 1);
    let needed = match klen.checked_add(vlen) {
        Some(x) => x.checked_add(1),
        None => None,
    };
    let needed = match needed {
        Some(y) => y,
        None => {
            proof {
                assert(r2.len() < digits_val(s@.take(digit_span(s@) as int)) + digits_val(
                    r1.take(digit_span(r1) as int),
                ) + 1);
            }
            return Err(CodecError);
        },
    };
    if n2 < needed {
        return Err(CodecError);
    }
    if s2.get_char(klen + vlen) != '\n' {
        return Err(CodecError);
    }
    let key = s2.substring_char(0, klen);
    let value = s2.substring_char(klen, klen + vlen);
    let rest = s2.substring_char(klen + vlen + 1, n2);
    proof {
        assert(rest@ =~= r2.skip(klen as int + vlen as int + 1));
        assert(rest@.len() < s@.len());
    }
    let tail = match decode_records_str(rest) {
        Ok(t) => t,
        Err(e) => {
            return Err(e);
        },
    };
    let mut out: Vec<KeyValue> = Vec::new();
    out.push(KeyValue { key: key.to_owned(), value: value.to_owned() });
    let mut tailv = tail;
    let ghost tview = views_of(tailv@);
    out.append(&mut tailv);
    proof {
        assert(views_of(out@) =~= seq![(key@, value@)] + tview);
        assert(key@ == r2.take(klen as int));
        assert(value@ == r2.subrange(klen as int, klen as int + vlen as int));
    }
    Ok(out)
}

/// When the key length written in the text overflows the machine
/// word, no record can follow and decoding fails.
proof fn lemma_spec_decode_huge_key(s: Seq<char>)
    requires
        s.len() > 0,
        s.len() <= usize::MAX,
        digit_span(s) > 0,
        digit_span(s) < s.len(),
        s[digit_span(s) as int] == ' ',
        digits_val(s.take(digit_span(s) as int)) > usize::MAX,
    ensures
        spec_decode(s) is None,
{
    let d1 = digit_span(s) as int;
    let klen = digits_val(s.take(d1)) as int;
    let r1 = s.skip(d1 + 1);
    let d2 = digit_span(r1) as int;
    if !(d2 == 0 || d2 >= r1.len() || r1[d2] != ' ') {
        let vlen = digits_val(r1.take(d2)) as int;
        let r2 = r1.skip(d2 + 1);
        assert(r2.len() < klen + vlen + 1);
    }
}

/// The value-length counterpart of `lemma_spec_decode_huge_key`.
proof fn lemma_spec_decode_huge_value(s: Seq<char>)
    requires
        s.len() > 0,
        s.len() <= usize::MAX,
        digit_span(s) > 0,
        digit_span(s) < s.len(),
        s[digit_span(s) as int] == ' ',
        digit_span(s.skip(digit_span(s) as int + 1)) > 0,
        digit_span(s.skip(digit_span(s) as int + 1)) < s.skip(digit_span(s) as int + 1).len(),
        s.skip(digit_span(s) as int + 1)[digit_span(s.skip(digit_span(s) as int + 1)) as int]
            == ' ',
        digits_val(
            s.skip(digit_span(s) as int + 1).take(
                digit_span(s.skip(digit_span(s) as int + 1)) as int,
            ),
        ) > usize::MAX,
    ensures
        spec_decode(s) is None,
{
    let d1 = digit_span(s) as int;
    let klen = digits_val(s.take(d1)) as int;
    let r1 = s.skip(d1 + 1);
    let d2 = digit_span(r1) as int;
    let vlen = digits_val(r1.take(d2)) as int;
    let r2 = r1.skip(d2 + 1);
    assert(r2.len() < klen + vlen + 1);
}

} // verus!
