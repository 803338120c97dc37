//! The snapshot file format: a label-to-value mapping written as one object
//! of quoted keys and decimal values, `{"label":123,"other":4}`. Keys escape
//! the quote and the backslash with a backslash. The encoder and the parser
//! are verified against spec-level definitions, and parsing an encoded
//! snapshot is proved to give the entries back unchanged.

use vstd::prelude::*;
use vstd::arithmetic::div_mod::lemma_fundamental_div_mod;

verus! {

/// Whether `c` is a decimal digit.
pub open spec fn is_digit(c: char) -> bool {
    '0' <= c && c <= '9'
}

/// The numeric value of a digit character.
pub open spec fn digit_val(c: char) -> int {
    c as int - '0' as int
}

/// The digit character for a value below ten.
pub open spec fn spec_digit(d: int) -> char {
    if d == 0 {
        '0'
    } else if d == 1 {
        '1'
    } else if d == 2 {
        '2'
    } else if d == 3 {
        '3'
    } else if d == 4 {
        '4'
    } else if d == 5 {
        '5'
    } else if d == 6 {
        '6'
    } else if d == 7 {
        '7'
    } else if d == 8 {
        '8'
    } else {
        '9'
    }
}

/// The decimal encoding of a number: most significant digit first, no
/// leading zero.
pub open spec fn enc_u64(n: nat) -> Seq<char>
    decreases n,
{
    if n < 10 {
        seq![spec_digit(n as int)]
    } else {
        enc_u64(n / 10).push(spec_digit((n % 10) as int))
    }
}

/// The escaped form of one key character: quote and backslash each get a
/// backslash in front; every other character stands as itself.
pub open spec fn esc_char(c: char) -> Seq<char> {
    if c == '"' || c == '\\' {
        seq!['\\', c]
    } else {
        seq![c]
    }
}

/// The escaped form of a whole key.
pub open spec fn esc_string(s: Seq<char>) -> Seq<char>
    decreases s.len(),
{
    if s.len() == 0 {
        Seq::empty()
    } else {
        esc_char(s[0]) + esc_string(s.drop_first())
    }
}

/// The encoding of one entry: the quoted, escaped key, a colon, the decimal
/// value.
pub open spec fn enc_entry(k: Seq<char>, v: u64) -> Seq<char> {
    seq!['"'] + esc_string(k) + seq!['"', ':'] + enc_u64(v as nat)
}

/// The encoding of a list of entries, separated by commas.
pub open spec fn enc_entries(es: Seq<(Seq<char>, u64)>) -> Seq<char>
    decreases es.len(),
{
    if es.len() == 0 {
        Seq::empty()
    } else if es.len() == 1 {
        enc_entry(es[0].0, es[0].1)
    } else {
        enc_entry(es[0].0, es[0].1) + seq![','] + enc_entries(es.drop_first())
    }
}

/// The whole snapshot: the entries inside braces.
pub open spec fn enc_snapshot(es: Seq<(Seq<char>, u64)>) -> Seq<char> {
    seq!['{'] + enc_entries(es) + seq!['}']
}

/// Parses a key after its opening quote: the unescaped key and the rest of
/// the input after the closing quote, or nothing when the input is not a
/// closed, well-escaped key.
pub open spec fn p_string(s: Seq<char>) -> Option<(Seq<char>, Seq<char>)>
    decreases s.len(),
{
    if s.len() == 0 {
        None
    } else if s[0] == '"' {
        Some((Seq::empty(), s.drop_first()))
    } else if s[0] == '\\' {
        if s.len() >= 2 && (s[1] == '"' || s[1] == '\\') {
            match p_string(s.skip(2)) {
                Some(kr) => Some((seq![s[1]] + kr.0, kr.1)),
                None => None,
            }
        } else {
            None
        }
    } else {
        match p_string(s.drop_first()) {
            Some(kr) => Some((seq![s[0]] + kr.0, kr.1)),
            None => None,
        }
    }
}

/// Reads digits greedily, folding them onto `acc`; stops at the first
/// non-digit and returns the value with the rest of the input.
pub open spec fn p_num(s: Seq<char>, acc: int) -> (int, Seq<char>)
    decreases s.len(),
{
    if s.len() > 0 && is_digit(s[0]) {
        p_num(s.drop_first(), acc * 10 + digit_val(s[0]))
    } else {
        (acc, s)
    }
}

/// Parses a non-empty entry list followed by the closing brace.
pub open spec fn p_entries(s: Seq<char>) -> Option<Seq<(Seq<char>, u64)>>
    decreases s.len(),
    via p_entries_dec
{
    if s.len() == 0 || s[0] != '"' {
        None
    } else {
        match p_string(s.drop_first()) {
            None => None,
            Some(kr) => {
                if kr.1.len() == 0 || kr.1[0] != ':' {
                    None
                } else {
                    let r2 = kr.1.drop_first();
                    if r2.len() == 0 || !is_digit(r2[0]) {
                        None
                    } else {
                        let nr = p_num(r2, 0);
                        if nr.0 > u64::MAX {
                            None
                        } else if nr.1.len() == 1 && nr.1[0] == '}' {
                            Some(seq![(kr.0, nr.0 as u64)])
                        } else if nr.1.len() > 0 && nr.1[0] == ',' {
                            match p_entries(nr.1.drop_first()) {
                                None => None,
                                Some(es) => Some(seq![(kr.0, nr.0 as u64)] + es),
                            }
                        } else {
                            None
                        }
                    }
                }
            },
        }
    }
}

/// A successful key parse leaves a strictly shorter rest.
proof fn lemma_p_string_shorter(s: Seq<char>)
    ensures
        p_string(s) is Some ==> p_string(s).unwrap().1.len() < s.len(),
    decreases s.len(),
{
    if s.len() > 0 && s[0] != '"' {
        if s[0] == '\\' {
            if s.len() >= 2 && (s[1] == '"' || s[1] == '\\') {
                lemma_p_string_shorter(s.skip(2));
            }
        } else {
            lemma_p_string_shorter(s.drop_first());
        }
    }
}

/// A number parse never lengthens the input, and consumes the leading digit.
proof fn lemma_p_num_shorter(s: Seq<char>, acc: int)
    ensures
        p_num(s, acc).1.len() <= s.len(),
        s.len() > 0 && is_digit(s[0]) ==> p_num(s, acc).1.len() < s.len(),
    decreases s.len(),
{
    if s.len() > 0 && is_digit(s[0]) {
        lemma_p_num_shorter(s.drop_first(), acc * 10 + digit_val(s[0]));
    }
}

#[via_fn]
proof fn p_entries_dec(s: Seq<char>) {
    if s.len() > 0 && s[0] == '"' {
        lemma_p_string_shorter(s.drop_first());
        if p_string(s.drop_first()) is Some {
            let kr = p_string(s.drop_first()).unwrap();
            if kr.1.len() > 0 && kr.1[0] == ':' {
                lemma_p_num_shorter(kr.1.drop_first(), 0);
            }
        }
    }
}

/// Parses a whole snapshot: the braces around a possibly empty entry list.
pub open spec fn p_snapshot(s: Seq<char>) -> Option<Seq<(Seq<char>, u64)>> {
    if s.len() < 2 || s[0] != '{' {
        None
    } else if s.len() == 2 && s[1] == '}' {
        Some(Seq::empty())
    } else {
        p_entries(s.drop_first())
    }
}

/// The value a number parse accumulates never shrinks.
proof fn lemma_p_num_grows(s: Seq<char>, acc: int)
    requires
        acc >= 0,
    ensures
        p_num(s, acc).0 >= acc,
    decreases s.len(),
{
    if s.len() > 0 && is_digit(s[0]) {
        lemma_p_num_grows(s.drop_first(), acc * 10 + digit_val(s[0]));
    }
}

/// Every character of a decimal encoding is a digit, and there is at least
/// one.
proof fn lemma_enc_u64_digits(n: nat)
    ensures
        enc_u64(n).len() >= 1,
        forall|i: int| 0 <= i < enc_u64(n).len() ==> is_digit(#[trigger] enc_u64(n)[i]),
    decreases n,
{
    if n >= 10 {
        lemma_enc_u64_digits(n / 10);
    }
}

/// Reading the digits of an encoded number, then a non-digit, gives the
/// number back and stops exactly there.
proof fn lemma_p_num_enc(ds: Seq<char>, rest: Seq<char>, acc: int)
    requires
        forall|i: int| 0 <= i < ds.len() ==> is_digit(#[trigger] ds[i]),
        rest.len() == 0 || !is_digit(rest[0]),
    ensures
        p_num(ds + rest, acc) == (fold_digits(ds, acc), rest),
    decreases ds.len(),
{
    if ds.len() == 0 {
        assert(ds + rest =~= rest);
    } else {
        let s = ds + rest;
        assert(s[0] == ds[0]);
        assert(s.drop_first() =~= ds.drop_first() + rest);
        lemma_p_num_enc(ds.drop_first(), rest, acc * 10 + digit_val(ds[0]));
    }
}

/// Folds a digit string onto an accumulator, most significant first.
pub open spec fn fold_digits(ds: Seq<char>, acc: int) -> int
    decreases ds.len(),
{
    if ds.len() == 0 {
        acc
    } else {
        fold_digits(ds.drop_first(), acc * 10 + digit_val(ds[0]))
    }
}

/// Appending a digit multiplies the folded value by ten and adds it.
proof fn lemma_fold_digits_push(ds: Seq<char>, d: char, acc: int)
    ensures
        fold_digits(ds.push(d), acc) == fold_digits(ds, acc) * 10 + digit_val(d),
    decreases ds.len(),
{
    reveal_with_fuel(fold_digits, 3);
    assert(ds.push(d)[0] == if ds.len() == 0 {
        d
    } else {
        ds[0]
    });
    if ds.len() == 0 {
        assert(ds.push(d).drop_first() =~= Seq::empty());
    } else {
        assert(ds.push(d).drop_first() =~= ds.drop_first().push(d));
        lemma_fold_digits_push(ds.drop_first(), d, acc * 10 + digit_val(ds[0]));
    }
}

/// Folding the decimal encoding of a number gives the number back.
proof fn lemma_fold_enc_u64(n: nat)
    ensures
        fold_digits(enc_u64(n), 0) == n,
    decreases n,
{
    reveal_with_fuel(fold_digits, 3);
    reveal_with_fuel(enc_u64, 2);
    if n < 10 {
        assert(enc_u64(n) =~= seq![spec_digit(n as int)]);
        assert(enc_u64(n)[0] == spec_digit(n as int));
        assert(enc_u64(n).drop_first() =~= Seq::empty());
        assert(digit_val(spec_digit(n as int)) == n);
    } else {
        lemma_fold_enc_u64(n / 10);
        lemma_fold_digits_push(enc_u64(n / 10), spec_digit((n % 10) as int), 0);
        assert(digit_val(spec_digit((n % 10) as int)) == n % 10);
        lemma_fundamental_div_mod(n as int, 10);
        assert(fold_digits(enc_u64(n), 0) == (n / 10) * 10 + n % 10);
    }
}


/// Parsing the escaped form of a key, its closing quote, and anything after
/// gives the key back and stops exactly at the quote.
proof fn lemma_p_string_esc(k: Seq<char>, rest: Seq<char>)
    ensures
        p_string(esc_string(k) + seq!['"'] + rest) == Some((k, rest)),
    decreases k.len(),
{
    reveal_with_fuel(p_string, 2);
    let s = esc_string(k) + seq!['"'] + rest;
    if k.len() == 0 {
        assert(s =~= seq!['"'] + rest);
        assert(s[0] == '"');
        assert(s.drop_first() =~= rest);
        assert(k =~= Seq::<char>::empty());
    } else {
        let c = k[0];
        let kd = k.drop_first();
        lemma_p_string_esc(kd, rest);
        assert(esc_string(k) =~= esc_char(c) + esc_string(kd));
        if c == '"' || c == '\\' {
            assert(s[0] == '\\');
            assert(s.len() >= 2);
            assert(s[1] == c);
            assert(s.skip(2) =~= esc_string(kd) + seq!['"'] + rest);
            assert(p_string(s.skip(2)) == Some((kd, rest)));
            assert(seq![s[1]] + kd =~= k);
        } else {
            assert(s[0] == c);
            assert(s.drop_first() =~= esc_string(kd) + seq!['"'] + rest);
            assert(p_string(s.drop_first()) == Some((kd, rest)));
            assert(seq![s[0]] + kd =~= k);
        }
    }
}

/// A non-empty entry list encodes to at least one character, the opening
/// quote of its first key.
proof fn lemma_enc_entries_nonempty(es: Seq<(Seq<char>, u64)>)
    requires
        es.len() > 0,
    ensures
        enc_entries(es).len() >= 1,
        enc_entries(es)[0] == '"',
{
    let e = enc_entry(es[0].0, es[0].1);
    assert(e[0] == '"');
    assert(e.len() >= 1);
    if es.len() == 1 {
    } else {
        assert(enc_entries(es)[0] == e[0]);
    }
}

/// Parsing an encoded non-empty entry list followed by the closing brace
/// gives the entries back.
proof fn lemma_p_entries_enc(es: Seq<(Seq<char>, u64)>)
    requires
        es.len() > 0,
    ensures
        p_entries(enc_entries(es) + seq!['}']) == Some(es),
    decreases es.len(),
{
    let k = es[0].0;
    let v = es[0].1;
    let s = enc_entries(es) + seq!['}'];
    lemma_enc_u64_digits(v as nat);
    lemma_fold_enc_u64(v as nat);
    if es.len() == 1 {
        let rest0 = seq![':'] + enc_u64(v as nat) + seq!['}'];
        assert(s =~= seq!['"'] + (esc_string(k) + seq!['"'] + rest0));
        assert(s[0] == '"');
        assert(s.drop_first() =~= esc_string(k) + seq!['"'] + rest0);
        lemma_p_string_esc(k, rest0);
        assert(p_string(s.drop_first()) == Some((k, rest0)));
        assert(rest0[0] == ':');
        let r2 = rest0.drop_first();
        assert(r2 =~= enc_u64(v as nat) + seq!['}']);
        assert(r2[0] == enc_u64(v as nat)[0]);
        assert(is_digit(r2[0]));
        assert(!is_digit('}'));
        lemma_p_num_enc(enc_u64(v as nat), seq!['}'], 0);
        assert(p_num(r2, 0) == (v as int, seq!['}']));
        assert((v as int) as u64 == v);
        assert(p_entries(s) == Some(seq![(k, v)]));
        assert(seq![(k, v)] =~= es);
    } else {
        let tail = seq![','] + enc_entries(es.drop_first()) + seq!['}'];
        let rest0 = seq![':'] + enc_u64(v as nat) + tail;
        assert(s =~= seq!['"'] + (esc_string(k) + seq!['"'] + rest0));
        assert(s[0] == '"');
        assert(s.drop_first() =~= esc_string(k) + seq!['"'] + rest0);
        lemma_p_string_esc(k, rest0);
        assert(p_string(s.drop_first()) == Some((k, rest0)));
        assert(rest0[0] == ':');
        let r2 = rest0.drop_first();
        assert(r2 =~= enc_u64(v as nat) + tail);
        assert(r2[0] == enc_u64(v as nat)[0]);
        assert(is_digit(r2[0]));
        assert(tail[0] == ',');
        assert(!is_digit(','));
        lemma_p_num_enc(enc_u64(v as nat), tail, 0);
        assert(p_num(r2, 0) == (v as int, tail));
        lemma_enc_entries_nonempty(es.drop_first());
        assert(tail.len() >= 3);
        assert(tail.len() != 1);
        assert(tail[0] == ',');
        assert(tail.drop_first() =~= enc_entries(es.drop_first()) + seq!['}']);
        lemma_p_entries_enc(es.drop_first());
        assert(p_entries(tail.drop_first()) == Some(es.drop_first()));
        assert((v as int) as u64 == v);
        assert(p_entries(s) == Some(seq![(k, v)] + es.drop_first()));
        assert(seq![(k, v)] + es.drop_first() =~= es);
    }
}

/// The round-trip law: parsing an encoded snapshot gives the entries back
/// unchanged, whatever labels and values they hold.
pub proof fn lemma_snapshot_round_trip(es: Seq<(Seq<char>, u64)>)
    ensures
        p_snapshot(enc_snapshot(es)) == Some(es),
{
    let s = enc_snapshot(es);
    if es.len() == 0 {
        assert(enc_entries(es) =~= Seq::<char>::empty());
        assert(s =~= seq!['{', '}']);
        assert(s.len() == 2 && s[0] == '{' && s[1] == '}');
        assert(es =~= Seq::<(Seq<char>, u64)>::empty());
    } else {
        lemma_enc_entries_nonempty(es);
        assert(s[0] == '{');
        assert(s.len() >= 3);
        assert(s.drop_first() =~= enc_entries(es) + seq!['}']);
        lemma_p_entries_enc(es);
    }
}


/// The spec-level picture of a list of owned entries: each label as its
/// characters.
pub open spec fn pairs_view(ps: Seq<(String, u64)>) -> Seq<(Seq<char>, u64)> {
    ps.map_values(|p: (String, u64)| (p.0@, p.1))
}

/// Relies on str::chars: yields exactly the characters of the string, in
/// order.
#[verifier::external_body]
fn chars_of(s: &str) -> (r: Vec<char>)
    ensures
        r@ == s@,
{
    s.chars().collect()
}

/// Relies on String's FromIterator for char: collects exactly the given
/// characters, in order.
#[verifier::external_body]
pub(crate) fn string_of(v: &Vec<char>) -> (r: String)
    ensures
        r@ == v@,
{
    v.iter().copied().collect()
}

/// The digit character of a value below ten.
fn digit_char(d: u64) -> (r: char)
    requires
        d < 10,
    ensures
        r == spec_digit(d as int),
{
    if d == 0 {
        '0'
    } else if d == 1 {
        '1'
    } else if d == 2 {
        '2'
    } else if d == 3 {
        '3'
    } else if d == 4 {
        '4'
    } else if d == 5 {
        '5'
    } else if d == 6 {
        '6'
    } else if d == 7 {
        '7'
    } else if d == 8 {
        '8'
    } else {
        '9'
    }
}

/// Whether `c` is a decimal digit.
fn is_digit_char(c: char) -> (r: bool)
    ensures
        r == is_digit(c),
{
    let u: u32 = c as u32;
    48 <= u && u <= 57
}

/// The numeric value of a digit character.
fn char_digit(c: char) -> (r: u64)
    requires
        is_digit(c),
    ensures
        r as int == digit_val(c),
        r < 10,
{
    let u: u32 = c as u32;
    (u - 48) as u64
}

/// Appends the decimal encoding of `n`.
pub(crate) fn push_u64(out: &mut Vec<char>, n: u64)
    ensures
        final(out)@ == old(out)@ + enc_u64(n as nat),
    decreases n,
{
    if n < 10 {
        out.push(digit_char(n));
        proof {
            assert(old(out)@.push(spec_digit(n as int)) =~= old(out)@ + enc_u64(n as nat));
        }
    } else {
        push_u64(out, n / 10);
        out.push(digit_char(n % 10));
        proof {
            assert(old(out)@ + enc_u64((n / 10) as nat) + seq![spec_digit((n % 10) as int)]
                =~= old(out)@ + enc_u64(n as nat));
        }
    }
}

/// Appends the escaped form of the key characters from position `i` on.
fn push_escaped_from(out: &mut Vec<char>, key: &Vec<char>, i: usize)
    requires
        i <= key@.len(),
    ensures
        final(out)@ == old(out)@ + esc_string(key@.skip(i as int)),
    decreases key@.len() - i,
{
    if i == key.len() {
        proof {
            assert(key@.skip(i as int) =~= Seq::<char>::empty());
            assert(out@ =~= out@ + Seq::<char>::empty());
        }
    } else {
        let c = key[i];
        if c == '"' || c == '\\' {
            out.push('\\');
            out.push(c);
        } else {
            out.push(c);
        }
        let ghost mid = out@;
        proof {
            assert(mid =~= old(out)@ + esc_char(c));
        }
        push_escaped_from(out, key, i + 1);
        proof {
            assert(key@.skip(i as int)[0] == c);
            assert(key@.skip(i as int).drop_first() =~= key@.skip(i + 1));
            assert(old(out)@ + esc_char(c) + esc_string(key@.skip(i + 1)) =~= old(out)@
                + esc_string(key@.skip(i as int)));
        }
    }
}

/// Appends one encoded entry.
fn push_entry(out: &mut Vec<char>, key: &String, v: u64)
    ensures
        final(out)@ == old(out)@ + enc_entry(key@, v),
{
    out.push('"');
    let kc = chars_of(key.as_str());
    proof {
        assert(kc@.skip(0) =~= key@);
    }
    push_escaped_from(out, &kc, 0);
    out.push('"');
    out.push(':');
    let ghost mid = out@;
    push_u64(out, v);
    proof {
        assert(mid =~= old(out)@ + seq!['"'] + esc_string(key@) + seq!['"', ':']);
        assert(old(out)@ + seq!['"'] + esc_string(key@) + seq!['"', ':'] + enc_u64(v as nat)
            =~= old(out)@ + enc_entry(key@, v));
    }
}

/// Appends the encoded entries from position `i` on, comma-separated.
fn push_entries_from(out: &mut Vec<char>, pairs: &Vec<(String, u64)>, i: usize)
    requires
        i <= pairs@.len(),
    ensures
        final(out)@ == old(out)@ + enc_entries(pairs_view(pairs@).skip(i as int)),
    decreases pairs@.len() - i,
{
    let ghost es = pairs_view(pairs@).skip(i as int);
    if i == pairs.len() {
        proof {
            assert(es =~= Seq::<(Seq<char>, u64)>::empty());
            assert(out@ =~= out@ + Seq::<char>::empty());
        }
    } else {
        proof {
            assert(es[0] == (pairs@[i as int].0@, pairs@[i as int].1));
        }
        push_entry(out, &pairs[i].0, pairs[i].1);
        if i + 1 < pairs.len() {
            out.push(',');
            let ghost mid = out@;
            push_entries_from(out, pairs, i + 1);
            proof {
                assert(es.drop_first() =~= pairs_view(pairs@).skip(i + 1));
                assert(mid =~= old(out)@ + enc_entry(es[0].0, es[0].1) + seq![',']);
                assert(old(out)@ + enc_entry(es[0].0, es[0].1) + seq![','] + enc_entries(
                    es.drop_first(),
                ) =~= old(out)@ + enc_entries(es));
            }
        } else {
            proof {
                assert(es.len() == 1);
            }
        }
    }
}

/// Encodes a whole snapshot: the entries, in the given order, inside braces.
pub fn encode_snapshot(pairs: &Vec<(String, u64)>) -> (r: String)
    ensures
        r@ == enc_snapshot(pairs_view(pairs@)),
{
    let mut out: Vec<char> = Vec::new();
    out.push('{');
    push_entries_from(&mut out, pairs, 0);
    out.push('}');
    proof {
        assert(pairs_view(pairs@).skip(0) =~= pairs_view(pairs@));
        assert(out@ =~= seq!['{'] + enc_entries(pairs_view(pairs@)) + seq!['}']);
    }
    string_of(&out)
}

/// Parses a key at position `i` (after its opening quote), pushing its
/// characters onto `acc`; returns the position after the closing quote.
fn parse_string_at(v: &Vec<char>, i: usize, acc: &mut Vec<char>) -> (r: Option<usize>)
    requires
        i <= v@.len(),
    ensures
        match r {
            Some(j) => i < j <= v@.len() && p_string(v@.skip(i as int)) is Some && final(acc)@
                == old(acc)@ + p_string(v@.skip(i as int)).unwrap().0 && p_string(
                v@.skip(i as int),
            ).unwrap().1 == v@.skip(j as int),
            None => p_string(v@.skip(i as int)) is None,
        },
    decreases v@.len() - i,
{
    let ghost s = v@.skip(i as int);
    if i == v.len() {
        proof {
            assert(s =~= Seq::<char>::empty());
        }
        return None;
    }
    let c = v[i];
    proof {
        assert(s[0] == c);
    }
    if c == '"' {
        proof {
            assert(s.drop_first() =~= v@.skip(i + 1));
            assert(acc@ =~= acc@ + Seq::<char>::empty());
        }
        Some(i + 1)
    } else if c == '\\' {
        if i + 1 < v.len() {
            let c2 = v[i + 1];
            proof {
                assert(s[1] == c2);
            }
            if c2 == '"' || c2 == '\\' {
                acc.push(c2);
                let ghost mid = acc@;
                let res = parse_string_at(v, i + 2, acc);
                proof {
                    assert(s.skip(2) =~= v@.skip(i + 2));
                }
                match res {
                    Some(j) => {
                        proof {
                            assert(mid + p_string(v@.skip(i + 2)).unwrap().0 =~= old(acc)@ + (seq![
                                c2,
                            ] + p_string(v@.skip(i + 2)).unwrap().0));
                        }
                        Some(j)
                    },
                    None => None,
                }
            } else {
                None
            }
        } else {
            proof {
                assert(s.len() == 1);
            }
            None
        }
    } else {
        acc.push(c);
        let ghost mid = acc@;
        let res = parse_string_at(v, i + 1, acc);
        proof {
            assert(s.drop_first() =~= v@.skip(i + 1));
        }
        match res {
            Some(j) => {
                proof {
                    assert(mid + p_string(v@.skip(i + 1)).unwrap().0 =~= old(acc)@ + (seq![c]
                        + p_string(v@.skip(i + 1)).unwrap().0));
                }
                Some(j)
            },
            None => None,
        }
    }
}

/// Parses a run of digits at position `i` onto the accumulator `acc`;
/// nothing comes back when the value would not be representable.
fn parse_num_at(v: &Vec<char>, i: usize, acc: u64) -> (r: Option<(u64, usize)>)
    requires
        i <= v@.len(),
    ensures
        match r {
            Some(nj) => i <= nj.1 <= v@.len() && p_num(v@.skip(i as int), acc as int) == (
                nj.0 as int,
                v@.skip(nj.1 as int),
            ),
            None => p_num(v@.skip(i as int), acc as int).0 > u64::MAX,
        },
    decreases v@.len() - i,
{
    let ghost s = v@.skip(i as int);
    if i == v.len() {
        proof {
            assert(s.len() == 0);
        }
        return Some((acc, i));
    }
    let c = v[i];
    proof {
        assert(s[0] == c);
    }
    if is_digit_char(c) {
        let d = char_digit(c);
        let wide: u128 = acc as u128 * 10 + d as u128;
        proof {
            assert(s.drop_first() =~= v@.skip(i + 1));
        }
        if wide > u64::MAX as u128 {
            proof {
                lemma_p_num_grows(v@.skip(i + 1), acc as int * 10 + digit_val(c));
            }
            None
        } else {
            parse_num_at(v, i + 1, (acc * 10 + d) as u64)
        }
    } else {
        Some((acc, i))
    }
}

/// Parses the entries of a snapshot from position `i` to the closing brace,
/// appending each to `out`; reports whether the input parsed.
fn parse_entries_at(v: &Vec<char>, i: usize, out: &mut Vec<(String, u64)>) -> (r: bool)
    requires
        i <= v@.len(),
    ensures
        r ==> p_entries(v@.skip(i as int)) is Some && pairs_view(final(out)@) == pairs_view(
            old(out)@,
        ) + p_entries(v@.skip(i as int)).unwrap(),
        !r ==> p_entries(v@.skip(i as int)) is None,
    decreases v@.len() - i,
{
    let ghost s = v@.skip(i as int);
    if i == v.len() {
        proof {
            assert(s.len() == 0);
        }
        return false;
    }
    proof {
        assert(s[0] == v@[i as int]);
    }
    if v[i] != '"' {
        return false;
    }
    let mut key: Vec<char> = Vec::new();
    proof {
        assert(s.drop_first() =~= v@.skip(i + 1));
    }
    let j = match parse_string_at(v, i + 1, &mut key) {
        None => {
            return false;
        },
        Some(j) => j,
    };
    let ghost kr = p_string(v@.skip(i + 1)).unwrap();
    proof {
        assert(key@ =~= kr.0);
    }
    if j == v.len() {
        return false;
    }
    proof {
        assert(kr.1[0] == v@[j as int]);
    }
    if v[j] != ':' {
        return false;
    }
    proof {
        assert(kr.1.drop_first() =~= v@.skip(j + 1));
    }
    if j + 1 == v.len() {
        proof {
            assert(kr.1.drop_first().len() == 0);
        }
        return false;
    }
    proof {
        assert(v@.skip(j + 1)[0] == v@[j + 1]);
    }
    if !is_digit_char(v[j + 1]) {
        return false;
    }
    let (n, m) = match parse_num_at(v, j + 1, 0) {
        None => {
            return false;
        },
        Some(nm) => nm,
    };
    let ghost nr = p_num(v@.skip(j + 1), 0);
    proof {
        assert(nr == (n as int, v@.skip(m as int)));
        assert(nr.1.len() == v@.len() - m);
    }
    if m == v.len() {
        return false;
    }
    proof {
        assert(nr.1[0] == v@[m as int]);
    }
    if m + 1 == v.len() && v[m] == '}' {
        let label = string_of(&key);
        out.push((label, n));
        proof {
            assert(pairs_view(out@) =~= pairs_view(old(out)@) + seq![(kr.0, n)]);
            assert(p_entries(s).unwrap() == seq![(kr.0, n)]);
        }
        return true;
    }
    if v[m] == ',' {
        let label = string_of(&key);
        out.push((label, n));
        let ghost mid = out@;
        proof {
            assert(nr.1.drop_first() =~= v@.skip(m + 1));
            assert(pairs_view(mid) =~= pairs_view(old(out)@) + seq![(kr.0, n)]);
        }
        let ok = parse_entries_at(v, m + 1, out);
        if ok {
            proof {
                let es = p_entries(v@.skip(m + 1)).unwrap();
                assert(pairs_view(out@) == pairs_view(mid) + es);
                assert(pairs_view(old(out)@) + seq![(kr.0, n)] + es =~= pairs_view(old(out)@) + (
                seq![(kr.0, n)] + es));
            }
            return true;
        }
        return false;
    }
    false
}

/// Parses a whole snapshot text: the entry list inside braces, or nothing
/// when the text is not a well-formed snapshot.
pub fn parse_snapshot(text: &str) -> (r: Option<Vec<(String, u64)>>)
    ensures
        match r {
            Some(ps) => p_snapshot(text@) == Some(pairs_view(ps@)),
            None => p_snapshot(text@) is None,
        },
{
    let v = chars_of(text);
    if v.len() < 2 {
        return None;
    }
    if v[0] != '{' {
        return None;
    }
    if v.len() == 2 && v[1] == '}' {
        let empty: Vec<(String, u64)> = Vec::new();
        proof {
            assert(pairs_view(empty@) =~= Seq::<(Seq<char>, u64)>::empty());
        }
        return Some(empty);
    }
    let mut out: Vec<(String, u64)> = Vec::new();
    proof {
        assert(text@.drop_first() =~= v@.skip(1));
    }
    if parse_entries_at(&v, 1, &mut out) {
        proof {
            assert(pairs_view(out@) =~= Seq::<(Seq<char>, u64)>::empty() + pairs_view(out@));
        }
        Some(out)
    } else {
        None
    }
}

} // verus!
