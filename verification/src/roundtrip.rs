//! What the texts the tool writes read back as: `0x..` numbers, scan
//! paths and value labels.

use vstd::prelude::*;

use crate::entity::{label_offset, strip_leading_pair};
use crate::export::{alphanumeric, final_offset, joined, path_offset_texts, path_offsets_list, name_char, numeric, sanitized, strip_trailing};
use crate::format::{bits_of, dec_char, dec_digits, hex_char, hex_digits, hex_text};
use crate::memory::{as_signed, lemma_pow_facts};
use crate::number::{accumulate, digit_of, from_str_radix, high_bound, low_bound};
use crate::parse::{
    base_address_of, bracket_offsets, bracket_values, hex_or_dec, is_base_word, offsets_of,
    plain_offsets, signed_value,
};
use crate::scan::path_text;
use crate::text::{ascii_lower, find_char, has_hex_prefix, is_white, split_on, strip_leading, trim, trim_end, trim_start};

verus! {

/// A character `{:#X}` writes among the digits.
pub open spec fn is_hex_digit_char(c: char) -> bool {
    ('0' <= c <= '9') || ('A' <= c <= 'F')
}

proof fn lemma_hex_char(d: nat)
    requires
        d < 16,
    ensures
        is_hex_digit_char(hex_char(d)),
        digit_of(hex_char(d), 16) == Some(d as int),
{
}

proof fn lemma_hex_digits_chars(v: nat)
    ensures
        hex_digits(v).len() >= 1,
        forall|k: int| 0 <= k < hex_digits(v).len() ==> is_hex_digit_char(#[trigger] hex_digits(v)[k]),
    decreases v,
{
    if v < 16 {
        lemma_hex_char(v);
    } else {
        lemma_hex_digits_chars(v / 16);
        lemma_hex_char(v % 16);
    }
}

/// The hex digits of `v` read back as `v` in any range holding it.
proof fn lemma_hex_digits_value(v: nat, lo: int, hi: int)
    requires
        lo <= 0,
        v <= hi,
    ensures
        accumulate(hex_digits(v), 16, false, lo, hi) == Ok::<int, crate::number::IntErrorKind>(
            v as int,
        ),
    decreases v,
{
    let d = hex_digits(v);
    if v < 16 {
        lemma_hex_char(v);
        assert(d =~= seq![hex_char(v)]);
        assert(d.drop_last() =~= Seq::<char>::empty());
        assert(d.last() == hex_char(v));
        assert(accumulate(d.drop_last(), 16, false, lo, hi) == Ok::<int, crate::number::IntErrorKind>(0));
        assert(0 * 16 + v == v);
    } else {
        lemma_hex_digits_value(v / 16, lo, hi);
        lemma_hex_char(v % 16);
        assert(d.drop_last() =~= hex_digits(v / 16));
        assert(d.last() == hex_char(v % 16));
        assert((v / 16) * 16 + v % 16 == v);
    }
}

proof fn lemma_trim_no_white(s: Seq<char>)
    requires
        forall|k: int| 0 <= k < s.len() ==> !is_white(#[trigger] s[k]),
    ensures
        trim(s) == s,
{
    if s.len() > 0 {
        assert(!is_white(s[0]));
        assert(!is_white(s.last()));
    }
}

proof fn lemma_hex_text_shape(v: nat)
    ensures
        hex_text(v).len() >= 3,
        hex_text(v)[0] == '0',
        hex_text(v)[1] == 'x',
        hex_text(v).skip(2) == hex_digits(v),
        forall|k: int| 0 <= k < hex_text(v).len() ==> !is_white(#[trigger] hex_text(v)[k]),
        forall|k: int| 0 <= k < hex_text(v).len() ==> #[trigger] hex_text(v)[k] != ']'
            && hex_text(v)[k] != '+' && hex_text(v)[k] != '[',
        forall|k: int| 2 <= k < hex_text(v).len() ==> is_hex_digit_char(#[trigger] hex_text(v)[k]),
        is_hex_digit_char(hex_text(v).last()),
{
    reveal_strlit("0x");
    lemma_hex_digits_chars(v);
    let t = hex_text(v);
    assert(t.skip(2) =~= hex_digits(v));
    assert forall|k: int| 2 <= k < t.len() implies is_hex_digit_char(#[trigger] t[k]) by {
        assert(t[k] == hex_digits(v)[k - 2]);
    }
}

/// A `0x..` text of any `u64` reads back as that value when taken as a
/// base address.
pub proof fn law_base_address_of_hex_text(v: u64)
    ensures
        base_address_of(hex_text(v as nat)) == Ok::<u64, Seq<char>>(v),
{
    let t = hex_text(v as nat);
    lemma_hex_text_shape(v as nat);
    lemma_trim_no_white(t);
    lemma_hex_digits_value(v as nat, low_bound(false), high_bound(false));
    let d = t.skip(2);
    assert(d[0] == t[2]);
}

/// The bare hex digits of any `u64` read back as that value when taken as
/// a base address.
pub proof fn law_base_address_of_hex_digits(v: u64)
    ensures
        base_address_of(hex_digits(v as nat)) == Ok::<u64, Seq<char>>(v),
{
    let d = hex_digits(v as nat);
    lemma_hex_digits_chars(v as nat);
    lemma_trim_no_white(d);
    lemma_hex_digits_value(v as nat, low_bound(false), high_bound(false));
    if d.len() >= 2 {
        assert(is_hex_digit_char(d[1]));
    }
    assert(is_hex_digit_char(d[0]));
}

/// A `0x..` text of a non-negative `i64` reads back as that offset.
pub proof fn law_offset_of_hex_text(v: i64)
    requires
        v >= 0,
    ensures
        hex_or_dec(hex_text(v as nat)) == Ok::<i64, Seq<char>>(v),
{
    let t = hex_text(v as nat);
    lemma_hex_text_shape(v as nat);
    lemma_trim_no_white(t);
    lemma_hex_digits_value(v as nat, low_bound(true), high_bound(true));
    let d = t.skip(2);
    assert(d[0] == t[2]);
    assert(has_hex_prefix(t));
    assert(from_str_radix(d, 16, true) == Ok::<int, crate::number::IntErrorKind>(v as int));
}

/// A `0x..` text of a non-negative `i64` with a leading `-` reads back as
/// the offset's negation.
#[verifier::rlimit(40)]
pub proof fn law_offset_of_negated_hex_text(v: i64)
    requires
        v >= 0,
    ensures
        hex_or_dec(seq!['-'] + hex_text(v as nat)) == Ok::<i64, Seq<char>>(-v as i64),
{
    let t = hex_text(v as nat);
    lemma_hex_text_shape(v as nat);
    lemma_hex_digits_value(v as nat, low_bound(true), high_bound(true));
    let d = t.skip(2);
    assert(d[0] == t[2]);
    let m = seq!['-'] + t;
    assert forall|k: int| 0 <= k < m.len() implies !is_white(#[trigger] m[k]) by {
        if k > 0 {
            assert(m[k] == t[k - 1]);
        }
    }
    lemma_trim_no_white(m);
    assert(m.drop_first() =~= t);
    assert(has_hex_prefix(t));
    assert(from_str_radix(d, 16, true) == Ok::<int, crate::number::IntErrorKind>(v as int));
    assert(signed_value(true, v as int) == -v as i64);
}

/// An `i64` read as the bits `{:#X}` prints is the `i64` again.
proof fn lemma_bits_signed(o: i64)
    ensures
        as_signed(bits_of(o) as int, 64) == o as int,
{
    lemma_pow_facts();
}

/// A value label, `format!("{:#X}", offset)`, reads back as its offset.
pub proof fn law_label_offset(o: i64)
    ensures
        label_offset(hex_text(bits_of(o))) == o,
{
    let v = bits_of(o);
    let t = hex_text(v);
    lemma_hex_text_shape(v);
    let d = hex_digits(v);
    lemma_hex_digits_chars(v);
    assert(strip_leading_pair(d, '0', 'x') == d) by {
        if d.len() >= 2 {
            assert(is_hex_digit_char(d[1]));
        }
    }
    assert(strip_leading_pair(t, '0', 'x') == d);
    assert(strip_leading_pair(d, '0', 'X') == d) by {
        if d.len() >= 2 {
            assert(is_hex_digit_char(d[1]));
        }
    }
    lemma_pow_facts();
    assert(v <= u64::MAX);
    law_base_address_of_hex_digits(v as u64);
    lemma_bits_signed(o);
}

/// Splitting `s + t` where `t` holds no separator extends the last piece
/// of `s` by `t`.
pub proof fn lemma_split_append(s: Seq<char>, t: Seq<char>, seps: Seq<char>)
    requires
        forall|k: int| 0 <= k < t.len() ==> !seps.contains(#[trigger] t[k]),
    ensures
        split_on(s + t, seps) == split_on(s, seps).update(
            split_on(s, seps).len() - 1,
            split_on(s, seps).last() + t,
        ),
    decreases t.len(),
{
    crate::text::lemma_split_nonempty(s, seps);
    if t.len() == 0 {
        assert(s + t =~= s);
        assert(split_on(s, seps).last() + t =~= split_on(s, seps).last());
        assert(split_on(s, seps).update(split_on(s, seps).len() - 1, split_on(s, seps).last())
            =~= split_on(s, seps));
    } else {
        lemma_split_append(s, t.drop_last(), seps);
        assert((s + t).drop_last() =~= s + t.drop_last());
        assert((s + t).last() == t.last());
        assert(split_on(s, seps).last() + t =~= (split_on(s, seps).last() + t.drop_last()).push(
            t.last(),
        ));
        let p = split_on(s + t.drop_last(), seps);
        assert(p.update(p.len() - 1, p.last().push(t.last())) =~= split_on(s, seps).update(
            split_on(s, seps).len() - 1,
            split_on(s, seps).last() + t,
        ));
    }
}

/// Splitting after a separator starts an empty piece.
proof fn lemma_split_sep(s: Seq<char>, c: char, seps: Seq<char>)
    requires
        seps.contains(c),
    ensures
        split_on(s.push(c), seps) == split_on(s, seps).push(Seq::<char>::empty()),
{
    assert(s.push(c).drop_last() =~= s);
}

/// The part of a scan path after `[[base`: `]` and then `+0x..]` per
/// offset.
pub open spec fn chain_tail(offsets: Seq<i64>) -> Seq<char>
    decreases offsets.len(),
{
    if offsets.len() == 0 {
        seq![']']
    } else {
        chain_tail(offsets.drop_last()) + seq!['+'] + hex_text(bits_of(offsets.last())) + seq![']']
    }
}

proof fn lemma_path_text_tail(offsets: Seq<i64>)
    ensures
        path_text(offsets) == seq!['[', '[', 'b', 'a', 's', 'e'] + chain_tail(offsets),
    decreases offsets.len(),
{
    reveal_strlit("[[base]");
    reveal_strlit("+");
    reveal_strlit("]");
    if offsets.len() > 0 {
        lemma_path_text_tail(offsets.drop_last());
    }
    assert(path_text(offsets) =~= seq!['[', '[', 'b', 'a', 's', 'e'] + chain_tail(offsets));
}

proof fn lemma_tail_chars(offsets: Seq<i64>)
    ensures
        forall|k: int| 0 <= k < chain_tail(offsets).len() ==> !is_white(#[trigger] chain_tail(offsets)[k])
            && chain_tail(offsets)[k] != '[',
        chain_tail(offsets).len() >= 1,
        chain_tail(offsets)[0] == ']',
    decreases offsets.len(),
{
    if offsets.len() > 0 {
        lemma_tail_chars(offsets.drop_last());
        let prev = chain_tail(offsets.drop_last());
        let h = hex_text(bits_of(offsets.last()));
        lemma_hex_text_shape(bits_of(offsets.last()));
        let t = chain_tail(offsets);
        assert(t =~= prev + (seq!['+'] + h + seq![']']));
        assert forall|k: int| 0 <= k < t.len() implies !is_white(#[trigger] t[k]) && t[k] != '[' by {
            if k < prev.len() {
                assert(t[k] == prev[k]);
            } else if k == prev.len() {
            } else if k < prev.len() + 1 + h.len() {
                assert(t[k] == h[k - prev.len() - 1]);
            }
        }
    }
}

/// The pieces of a chain tail split at `]`: an empty piece, one
/// `+0x..` piece per offset, and an empty piece.
proof fn lemma_tail_pieces(offsets: Seq<i64>)
    ensures
        split_on(chain_tail(offsets), seq![']']).len() == offsets.len() + 2,
        split_on(chain_tail(offsets), seq![']']).last() == Seq::<char>::empty(),
        (forall|k: int| 0 <= k < offsets.len() ==> #[trigger] offsets[k] >= 0) ==> bracket_values(
            split_on(chain_tail(offsets), seq![']']).drop_last(),
        ) == offsets,
    decreases offsets.len(),
{
    let seps = seq![']'];
    assert(seps[0] == ']');
    assert(seps.contains(']'));
    if offsets.len() == 0 {
        let e = Seq::<char>::empty();
        assert(seq![']'] =~= e.push(']'));
        lemma_split_sep(e, ']', seps);
        assert(split_on(e, seps) =~= seq![e]);
        let ps = split_on(seq![']'], seps);
        assert(ps.drop_last() =~= seq![e]);
        assert(seq![e].drop_last() =~= Seq::<Seq<char>>::empty());
        assert(trim(e) == e);
        assert(strip_leading(e, '+') == e);
        assert(bracket_values(seq![e]) == bracket_values(Seq::<Seq<char>>::empty()));
        assert(offsets =~= Seq::<i64>::empty());
    } else {
        let dl = offsets.drop_last();
        let x = offsets.last();
        lemma_tail_pieces(dl);
        let prev = chain_tail(dl);
        let h = hex_text(bits_of(x));
        lemma_hex_text_shape(bits_of(x));
        let body = seq!['+'] + h;
        assert forall|k: int| 0 <= k < body.len() implies !seps.contains(#[trigger] body[k]) by {
            if k > 0 {
                assert(body[k] == h[k - 1]);
            }
        }
        lemma_split_append(prev, body, seps);
        assert(chain_tail(offsets) =~= (prev + body).push(']'));
        lemma_split_sep(prev + body, ']', seps);
        let p0 = split_on(prev, seps);
        let p1 = split_on(prev + body, seps);
        assert(p0.last() + body =~= body);
        assert(p1 =~= p0.drop_last().push(body));
        let p2 = split_on(chain_tail(offsets), seps);
        assert(p2 == p1.push(Seq::<char>::empty()));
        assert(p2.drop_last() =~= p1);
        // the value of the `+0x..` piece
        assert forall|k: int| 0 <= k < body.len() implies !is_white(#[trigger] body[k]) by {
            if k > 0 {
                assert(body[k] == h[k - 1]);
            }
        }
        lemma_trim_no_white(body);
        assert(body.drop_first() =~= h);
        assert(strip_leading(h, '+') == h);
        assert(strip_leading(body, '+') == h);
        lemma_trim_no_white(h);
        assert(p1.drop_last() =~= p0.drop_last());
        assert(p1.last() == body);
        assert(p0 == p0.drop_last().push(Seq::<char>::empty()));
        assert(bracket_values(p0) == bracket_values(p0.drop_last())) by {
            assert(p0.drop_last().push(Seq::<char>::empty()).drop_last() =~= p0.drop_last());
        }
        if forall|k: int| 0 <= k < offsets.len() ==> #[trigger] offsets[k] >= 0 {
            assert(x == offsets[offsets.len() - 1]);
            assert forall|k: int| 0 <= k < dl.len() implies #[trigger] dl[k] >= 0 by {
                assert(dl[k] == offsets[k]);
            }
            law_offset_of_hex_text(x);
            assert(bits_of(x) == x as nat);
            assert(trim(strip_leading(trim(p1.last()), '+')) == h);
            assert(hex_or_dec(h) == Ok::<i64, Seq<char>>(x));
            assert(bracket_values(p1) == bracket_values(p1.drop_last()).push(x));
            assert(bracket_values(p1) =~= dl.push(x));
            assert(dl.push(x) =~= offsets);
        }
    }
}

/// The path a scan shows for its offsets reads back, through the offset
/// parser, as those offsets when none is negative.
#[verifier::spinoff_prover]
#[verifier::rlimit(40)]
pub proof fn law_path_reads_back(offsets: Seq<i64>)
    requires
        forall|k: int| 0 <= k < offsets.len() ==> #[trigger] offsets[k] >= 0,
    ensures
        offsets_of(path_text(offsets)) == Ok::<Seq<i64>, Seq<char>>(offsets),
        bracket_offsets(path_text(offsets)) == offsets,
{
    lemma_path_text_tail(offsets);
    lemma_tail_chars(offsets);
    lemma_tail_pieces(offsets);
    let tail = chain_tail(offsets);
    let head = seq!['[', '[', 'b', 'a', 's', 'e'];
    let p = head + tail;
    assert forall|k: int| 0 <= k < p.len() implies !is_white(#[trigger] p[k]) by {
        if k >= 6 {
            assert(p[k] == tail[k - 6]);
        }
    }
    lemma_trim_no_white(p);
    assert(p[0] == '[');
    assert(p.contains('['));
    let cur = strip_leading(p, '[');
    let word = seq!['b', 'a', 's', 'e'];
    assert(p.drop_first().drop_first() =~= word + tail);
    assert(cur == word + tail) by {
        let p1 = p.drop_first();
        let p2 = p1.drop_first();
        assert(p1[0] == '[');
        assert(p2 =~= word + tail);
        assert(p2[0] == 'b');
        assert(strip_leading(p2, '[') == p2);
        assert(strip_leading(p1, '[') == strip_leading(p2, '['));
        assert(strip_leading(p, '[') == strip_leading(p1, '['));
    }
    assert(find_char(cur, ']') == Some(4int)) by {
        let c1 = cur.drop_first();
        let c2 = c1.drop_first();
        let c3 = c2.drop_first();
        let c4 = c3.drop_first();
        assert(c1 =~= seq!['a', 's', 'e'] + tail);
        assert(c2 =~= seq!['s', 'e'] + tail);
        assert(c3 =~= seq!['e'] + tail);
        assert(c4 =~= tail);
        assert(c4[0] == ']');
        assert(find_char(c4, ']') == Some(0int));
        assert(c3[0] == 'e');
        assert(find_char(c3, ']') == Some(1int));
        assert(c2[0] == 's');
        assert(find_char(c2, ']') == Some(2int));
        assert(c1[0] == 'a');
        assert(find_char(c1, ']') == Some(3int));
        assert(cur[0] == 'b');
    }
    assert(cur.take(4) =~= word);
    assert(is_base_word(word));
    assert(cur.skip(4) =~= tail);
    let ps = split_on(tail, seq![']']);
    assert(ps == ps.drop_last().push(Seq::<char>::empty()));
    assert(bracket_values(ps) == bracket_values(ps.drop_last())) by {
        assert(ps.drop_last().push(Seq::<char>::empty()).drop_last() =~= ps.drop_last());
        assert(trim(Seq::<char>::empty()) == Seq::<char>::empty());
        assert(strip_leading(Seq::<char>::empty(), '+') == Seq::<char>::empty());
    }
    assert(Seq::<i64>::empty() + offsets =~= offsets);
}

/// The final offset of a scan path, as the header export reads it, is the
/// bits of the path's last offset.
pub proof fn law_final_offset_of_path(offsets: Seq<i64>)
    requires
        offsets.len() > 0,
    ensures
        final_offset(path_text(offsets)) as nat == bits_of(offsets.last()),
{
    let dl = offsets.drop_last();
    let x = offsets.last();
    let h = hex_text(bits_of(x));
    lemma_hex_text_shape(bits_of(x));
    reveal_strlit("+");
    reveal_strlit("]");
    let piece = h.push(']');
    let seps = seq!['+'];
    assert(seps[0] == '+');
    assert(seps.contains('+'));
    assert forall|k: int| 0 <= k < piece.len() implies !seps.contains(#[trigger] piece[k]) by {
        if k < h.len() {
            assert(piece[k] == h[k]);
        }
    }
    let before = path_text(dl);
    assert(path_text(offsets) =~= before.push('+') + piece);
    lemma_split_append(before.push('+'), piece, seps);
    lemma_split_sep(before, '+', seps);
    let last = split_on(path_text(offsets), seps).last();
    assert(last =~= Seq::<char>::empty() + piece);
    assert forall|k: int| 0 <= k < piece.len() implies !is_white(#[trigger] piece[k]) by {
        if k < h.len() {
            assert(piece[k] == h[k]);
        }
    }
    lemma_trim_no_white(piece);
    assert(piece.drop_last() =~= h);
    assert(strip_trailing(piece, ']') == strip_trailing(h, ']'));
    assert(strip_trailing(h, ']') == h);
    lemma_pow_facts();
    law_base_address_of_hex_text(bits_of(x) as u64);
}


/// `s` with every `+` written as `,`.
pub open spec fn plus_to_comma(s: Seq<char>) -> Seq<char> {
    s.map_values(|c: char| if c == '+' { ',' } else { c })
}

proof fn lemma_plus_to_comma_drop(s: Seq<char>)
    requires
        s.len() > 0,
    ensures
        plus_to_comma(s).drop_first() == plus_to_comma(s.drop_first()),
        plus_to_comma(s).drop_last() == plus_to_comma(s.drop_last()),
{
    assert(plus_to_comma(s).drop_first() =~= plus_to_comma(s.drop_first()));
    assert(plus_to_comma(s).drop_last() =~= plus_to_comma(s.drop_last()));
}

proof fn lemma_trim_start_plus_to_comma(s: Seq<char>)
    ensures
        trim_start(plus_to_comma(s)) == plus_to_comma(trim_start(s)),
    decreases s.len(),
{
    if s.len() > 0 {
        lemma_plus_to_comma_drop(s);
        if is_white(s[0]) {
            lemma_trim_start_plus_to_comma(s.drop_first());
        }
    }
}

proof fn lemma_trim_end_plus_to_comma(s: Seq<char>)
    ensures
        trim_end(plus_to_comma(s)) == plus_to_comma(trim_end(s)),
    decreases s.len(),
{
    if s.len() > 0 {
        lemma_plus_to_comma_drop(s);
        if is_white(s.last()) {
            lemma_trim_end_plus_to_comma(s.drop_last());
        }
    }
}

proof fn lemma_split_plus_to_comma(s: Seq<char>, seps: Seq<char>)
    requires
        seps.contains('+'),
        seps.contains(','),
    ensures
        split_on(plus_to_comma(s), seps) == split_on(s, seps),
    decreases s.len(),
{
    if s.len() > 0 {
        lemma_plus_to_comma_drop(s);
        lemma_split_plus_to_comma(s.drop_last(), seps);
    }
}

proof fn lemma_trim_start_within(s: Seq<char>, c: char)
    ensures
        trim_start(s).contains(c) ==> s.contains(c),
    decreases s.len(),
{
    if s.len() > 0 && is_white(s[0]) {
        lemma_trim_start_within(s.drop_first(), c);
        if trim_start(s).contains(c) {
            let i = choose|i: int| 0 <= i < s.drop_first().len() && s.drop_first()[i] == c;
            assert(s[i + 1] == c);
        }
    }
}

proof fn lemma_trim_end_within(s: Seq<char>, c: char)
    ensures
        trim_end(s).contains(c) ==> s.contains(c),
    decreases s.len(),
{
    if s.len() > 0 && is_white(s.last()) {
        lemma_trim_end_within(s.drop_last(), c);
        if trim_end(s).contains(c) {
            let i = choose|i: int| 0 <= i < s.drop_last().len() && s.drop_last()[i] == c;
            assert(s[i] == c);
        }
    }
}

/// In an offset list without brackets, `+` and `,` separate offsets alike:
/// writing every `+` as `,` changes neither the offsets read nor the error.
pub proof fn law_plus_and_comma_separate_alike(s: Seq<char>)
    requires
        !s.contains('['),
    ensures
        offsets_of(plus_to_comma(s)) == offsets_of(s),
{
    let t = trim(s);
    lemma_trim_start_plus_to_comma(s);
    lemma_trim_end_plus_to_comma(trim_start(s));
    assert(trim(plus_to_comma(s)) == plus_to_comma(t));
    lemma_trim_end_within(trim_start(s), '[');
    lemma_trim_start_within(s, '[');
    assert(!t.contains('['));
    if plus_to_comma(t).contains('[') {
        let i = choose|i: int| 0 <= i < plus_to_comma(t).len() && plus_to_comma(t)[i] == '[';
        assert(t[i] == '[');
    }
    let seps = seq!['+', ',', ' '];
    assert(seps[0] == '+' && seps[1] == ',');
    lemma_split_plus_to_comma(t, seps);
}


/// Whether `c` may stand in a C++ name the export writes: alphanumeric or
/// `_`.
pub open spec fn name_safe(c: char) -> bool {
    alphanumeric(c) || c == '_'
}

/// A field name is never empty, every character of it is alphanumeric or
/// `_`, and its first character is not numeric.
pub proof fn law_field_name_chars(label: Seq<char>, offset: u64)
    ensures
        sanitized(label, offset).len() > 0,
        forall|i: int| 0 <= i < sanitized(label, offset).len() ==> name_safe(#[trigger] sanitized(label, offset)[i]),
        !numeric(sanitized(label, offset)[0]),
{
    if label.len() == 0 {
        lemma_hex_text_shape(offset as nat);
        reveal_strlit("field_");
        let h = hex_text(offset as nat);
        let t = "field_"@ + h;
        assert(t == sanitized(label, offset));
        assert forall|i: int| 0 <= i < t.len() implies name_safe(#[trigger] t[i]) by {
            if i >= 6 {
                assert(t[i] == h[i - 6]);
                if i - 6 >= 2 {
                    assert(is_hex_digit_char(h[i - 6]));
                }
            }
        }
    } else {
        let s = label.map_values(|c: char| name_char(c));
        assert forall|i: int| 0 <= i < s.len() implies name_safe(#[trigger] s[i]) by {
            assert(s[i] == name_char(label[i]));
        }
        if numeric(s[0]) {
            let t = "_"@ + s;
            reveal_strlit("_");
            assert forall|i: int| 0 <= i < t.len() implies name_safe(#[trigger] t[i]) by {
                if i > 0 {
                    assert(t[i] == s[i - 1]);
                }
            }
        }
    }
}

/// Sanitising a field name again, with any offset, changes nothing.
pub proof fn law_field_name_idempotent(label: Seq<char>, offset: u64, other: u64)
    ensures
        sanitized(sanitized(label, offset), other) == sanitized(label, offset),
{
    law_field_name_chars(label, offset);
    let t = sanitized(label, offset);
    let m = t.map_values(|c: char| name_char(c));
    assert forall|i: int| 0 <= i < t.len() implies #[trigger] m[i] == t[i] by {
        assert(name_safe(t[i]));
    }
    assert(m =~= t);
}


proof fn lemma_trim_start_shorter(s: Seq<char>)
    ensures
        trim_start(s).len() <= s.len(),
        s.len() > 0 && is_white(s[0]) ==> trim_start(s).len() < s.len(),
    decreases s.len(),
{
    if s.len() > 0 && is_white(s[0]) {
        lemma_trim_start_shorter(s.drop_first());
    }
}

proof fn lemma_trim_end_shorter(s: Seq<char>)
    ensures
        trim_end(s).len() <= s.len(),
        s.len() > 0 && is_white(s.last()) ==> trim_end(s).len() < s.len(),
    decreases s.len(),
{
    if s.len() > 0 && is_white(s.last()) {
        lemma_trim_end_shorter(s.drop_last());
    }
}

/// A text that trimming leaves alone starts and ends with no whitespace.
proof fn lemma_trimmed_ends(s: Seq<char>)
    requires
        trim(s) == s,
        s.len() > 0,
    ensures
        !is_white(s[0]),
        !is_white(s.last()),
{
    lemma_trim_start_shorter(s);
    lemma_trim_end_shorter(trim_start(s));
    if !is_white(s[0]) {
        assert(trim_start(s) == s);
    }
}

/// What `from_str_radix` accepts lies within the target type.
proof fn lemma_from_str_radix_range(s: Seq<char>, radix: int, signed: bool)
    ensures
        from_str_radix(s, radix, signed) matches Ok(w) ==> low_bound(signed) <= w <= high_bound(signed),
{
    if s.len() > 0 {
        crate::number::lemma_accumulate_in_range(s.drop_first(), radix, false, low_bound(signed), high_bound(signed));
        crate::number::lemma_accumulate_in_range(s.drop_first(), radix, true, low_bound(signed), high_bound(signed));
        crate::number::lemma_accumulate_in_range(s, radix, false, low_bound(signed), high_bound(signed));
    }
}

/// An offset text, trimmed and without a leading `-`, that reads as `v`
/// reads with a `-` in front as `-v` (for every `v` but `i64::MIN`, whose
/// negation wraps).
pub proof fn law_offset_negation(s: Seq<char>, v: i64)
    requires
        trim(s) == s,
        s.len() > 0,
        s[0] != '-',
        hex_or_dec(s) == Ok::<i64, Seq<char>>(v),
        v != i64::MIN,
    ensures
        hex_or_dec(seq!['-'] + s) == Ok::<i64, Seq<char>>(-v as i64),
{
    let m = seq!['-'] + s;
    lemma_trimmed_ends(s);
    assert(m[0] == '-');
    assert(!is_white('-'));
    assert(m.drop_first() =~= s);
    assert(trim_start(m) == m);
    assert(m.last() == s.last());
    assert(trim_end(m) == m);
    assert(trim(m) == m);
    lemma_from_str_radix_range(s.skip(2), 16, true);
    lemma_from_str_radix_range(s, 10, true);
}


/// `s` with its ASCII upper-case letters lower-cased.
pub open spec fn lower_all(s: Seq<char>) -> Seq<char> {
    s.map_values(|c: char| ascii_lower(c))
}

/// `format!("{:#x}", v)`: `0x` and lower-case hex digits.
pub open spec fn hex_text_lower(v: nat) -> Seq<char> {
    "0x"@ + lower_all(hex_digits(v))
}

proof fn lemma_digit_of_lower(c: char, radix: int)
    ensures
        digit_of(ascii_lower(c), radix) == digit_of(c, radix),
{
    if 65 <= (c as u32) && (c as u32) <= 90 {
        assert(ascii_lower(c) as u32 == c as u32 + 32);
    }
}

proof fn lemma_accumulate_lower(ds: Seq<char>, radix: int, negative: bool, lo: int, hi: int)
    ensures
        accumulate(lower_all(ds), radix, negative, lo, hi) == accumulate(ds, radix, negative, lo, hi),
    decreases ds.len(),
{
    if ds.len() > 0 {
        assert(lower_all(ds).drop_last() =~= lower_all(ds.drop_last()));
        assert(lower_all(ds).last() == ascii_lower(ds.last()));
        lemma_accumulate_lower(ds.drop_last(), radix, negative, lo, hi);
        lemma_digit_of_lower(ds.last(), radix);
    }
}

/// A `0x..` text in lower-case hex (`{:#x}`) of any `u64` reads back as
/// that value when taken as a base address.
pub proof fn law_base_address_of_lower_hex_text(v: u64)
    ensures
        base_address_of(hex_text_lower(v as nat)) == Ok::<u64, Seq<char>>(v),
{
    reveal_strlit("0x");
    let d = hex_digits(v as nat);
    let l = lower_all(d);
    let t = hex_text_lower(v as nat);
    lemma_hex_digits_chars(v as nat);
    assert forall|k: int| 0 <= k < l.len() implies !is_white(#[trigger] l[k]) && l[k] != '+' && l[k]
        != '-' by {
        assert(is_hex_digit_char(d[k]));
        if 65 <= (d[k] as u32) && (d[k] as u32) <= 90 {
            assert(ascii_lower(d[k]) as u32 == d[k] as u32 + 32);
        }
    }
    assert forall|k: int| 0 <= k < t.len() implies !is_white(#[trigger] t[k]) by {
        if k >= 2 {
            assert(t[k] == l[k - 2]);
        }
    }
    lemma_trim_no_white(t);
    assert(t.skip(2) =~= l);
    assert(l[0] != '+' && l[0] != '-');
    lemma_accumulate_lower(d, 16, false, low_bound(false), high_bound(false));
    lemma_hex_digits_value(v as nat, low_bound(false), high_bound(false));
    assert(is_hex_digit_char(d[0]));
}


/// The `0x..` texts of offsets, as `{:#X}` prints each.
pub open spec fn offset_texts(offsets: Seq<i64>) -> Seq<Seq<char>> {
    offsets.map_values(|o: i64| hex_text(bits_of(o)))
}

proof fn lemma_base_piece()
    ensures
        path_offset_texts(split_on(path_text(Seq::<i64>::empty()), seq!['+'])) == Seq::<Seq<char>>::empty(),
{
    let seps = seq!['+'];
    reveal_strlit("[[base]");
    let p = path_text(Seq::<i64>::empty());
    assert(p =~= seq!['[', '[', 'b', 'a', 's', 'e', ']']);
    assert forall|k: int| 0 <= k < p.len() implies !seps.contains(#[trigger] p[k]) && !is_white(p[k]) by {
        if seps.contains(p[k]) {
            let i = choose|i: int| 0 <= i < seps.len() && seps[i] == p[k];
            assert(i == 0);
        }
    }
    lemma_split_append(Seq::<char>::empty(), p, seps);
    assert(Seq::<char>::empty() + p =~= p);
    assert(split_on(p, seps) =~= seq![p]);
    lemma_trim_no_white(p);
    assert(p.drop_first() =~= seq!['[', 'b', 'a', 's', 'e', ']']);
    assert(p.drop_first().drop_first() =~= seq!['b', 'a', 's', 'e', ']']);
    let c0 = seq!['b', 'a', 's', 'e', ']'];
    assert(strip_leading(c0, '[') == c0);
    assert(c0.drop_last() =~= seq!['b', 'a', 's', 'e']);
    assert(strip_trailing(seq!['b', 'a', 's', 'e'], ']') == seq!['b', 'a', 's', 'e']);
    assert(strip_leading(p.drop_first(), '[') == c0);
    assert(strip_leading(p, '[') == c0);
    assert(strip_trailing(c0, ']') == seq!['b', 'a', 's', 'e']);
    assert(is_base_word(seq!['b', 'a', 's', 'e']));
    let parts = seq![p];
    assert(parts.last() == p);
    assert(parts.drop_last() =~= Seq::<Seq<char>>::empty());
    assert(path_offset_texts(parts.drop_last()) == Seq::<Seq<char>>::empty());
}

/// The pieces of a path with one more offset: the pieces before, and the
/// offset's `0x..]`.
proof fn lemma_path_pieces_push(offsets: Seq<i64>)
    requires
        offsets.len() > 0,
    ensures
        split_on(path_text(offsets), seq!['+']) == split_on(path_text(offsets.drop_last()), seq!['+']).push(
            hex_text(bits_of(offsets.last())).push(']'),
        ),
{
    let seps = seq!['+'];
    assert(seps[0] == '+');
    assert(seps.contains('+'));
    reveal_strlit("+");
    reveal_strlit("]");
    let h = hex_text(bits_of(offsets.last()));
    lemma_hex_text_shape(bits_of(offsets.last()));
    let piece = h.push(']');
    assert forall|k: int| 0 <= k < piece.len() implies !seps.contains(#[trigger] piece[k]) by {
        if k < h.len() {
            assert(piece[k] == h[k]);
        }
        if seps.contains(piece[k]) {
            let i = choose|i: int| 0 <= i < seps.len() && seps[i] == piece[k];
            assert(i == 0);
        }
    }
    let before = path_text(offsets.drop_last());
    assert(path_text(offsets) =~= before.push('+') + piece);
    lemma_split_append(before.push('+'), piece, seps);
    lemma_split_sep(before, '+', seps);
}

/// The offset a path piece `0x..]` lists is its `0x..` text.
proof fn lemma_offset_piece(x: i64)
    ensures
        ({
            let c = strip_trailing(strip_leading(trim(hex_text(bits_of(x)).push(']')), '['), ']');
            &&& !is_base_word(c)
            &&& c.len() > 0
            &&& base_address_of(c) == Ok::<u64, Seq<char>>(bits_of(x) as u64)
            &&& hex_text(bits_of(x) as u64 as nat) == hex_text(bits_of(x))
        }),
{
    let h = hex_text(bits_of(x));
    lemma_hex_text_shape(bits_of(x));
    let piece = h.push(']');
    assert forall|k: int| 0 <= k < piece.len() implies !is_white(#[trigger] piece[k]) by {
        if k < h.len() {
            assert(piece[k] == h[k]);
        }
    }
    lemma_trim_no_white(piece);
    assert(piece[0] == '0');
    assert(strip_leading(piece, '[') == piece);
    assert(piece.drop_last() =~= h);
    assert(strip_trailing(h, ']') == h);
    assert(strip_trailing(piece, ']') == h);
    lemma_pow_facts();
    law_base_address_of_hex_text(bits_of(x) as u64);
}

proof fn lemma_path_offset_texts(offsets: Seq<i64>)
    ensures
        path_offset_texts(split_on(path_text(offsets), seq!['+'])) == offset_texts(offsets),
    decreases offsets.len(),
{
    if offsets.len() == 0 {
        lemma_base_piece();
        assert(offset_texts(offsets) =~= Seq::<Seq<char>>::empty());
    } else {
        let dl = offsets.drop_last();
        let x = offsets.last();
        lemma_path_offset_texts(dl);
        lemma_path_pieces_push(offsets);
        lemma_offset_piece(x);
        let parts = split_on(path_text(offsets), seq!['+']);
        assert(parts.drop_last() =~= split_on(path_text(dl), seq!['+']));
        assert(offset_texts(offsets) =~= offset_texts(dl).push(hex_text(bits_of(x))));
    }
}

/// The offsets listed from a scan path (as the header export lists them)
/// are the path's offsets as `{:#X}` prints them, separated by `, `.
pub proof fn law_offsets_listed_from_path(offsets: Seq<i64>)
    ensures
        path_offsets_list(path_text(offsets)) == joined(offset_texts(offsets), ", "@),
{
    lemma_path_offset_texts(offsets);
}


/// The first error among `rs`, or all their values in order, as collecting
/// an iterator of `Result`s into a `Result<Vec<_>, _>` gives.
pub open spec fn collect_results(rs: Seq<Result<i64, Seq<char>>>) -> Result<Seq<i64>, Seq<char>>
    decreases rs.len(),
{
    if rs.len() == 0 {
        Ok(Seq::<i64>::empty())
    } else {
        match collect_results(rs.drop_last()) {
            Err(e) => Err(e),
            Ok(vs) => match rs.last() {
                Ok(v) => Ok(vs.push(v)),
                Err(e) => Err(e),
            },
        }
    }
}

/// The pieces, each trimmed, with the blank ones left out.
pub open spec fn tokens(ps: Seq<Seq<char>>) -> Seq<Seq<char>> {
    ps.map_values(|p: Seq<char>| trim(p)).filter(|t: Seq<char>| t.len() > 0)
}

/// Each token read as an offset.
pub open spec fn token_values(ts: Seq<Seq<char>>) -> Seq<Result<i64, Seq<char>>> {
    ts.map_values(|t: Seq<char>| hex_or_dec(t))
}

proof fn lemma_plain_offsets_collect(ps: Seq<Seq<char>>)
    ensures
        plain_offsets(ps) == collect_results(token_values(tokens(ps))),
    decreases ps.len(),
{
    reveal_with_fuel(Seq::<Seq<char>>::filter, 1);
    if ps.len() == 0 {
        assert(tokens(ps) =~= Seq::<Seq<char>>::empty());
        assert(token_values(tokens(ps)) =~= Seq::<Result<i64, Seq<char>>>::empty());
    } else {
        let dl = ps.drop_last();
        lemma_plain_offsets_collect(dl);
        let m = ps.map_values(|p: Seq<char>| trim(p));
        assert(m.drop_last() =~= dl.map_values(|p: Seq<char>| trim(p)));
        assert(m.last() == trim(ps.last()));
        let t = trim(ps.last());
        if t.len() > 0 {
            assert(tokens(ps) == tokens(dl).push(t));
            assert(token_values(tokens(ps)) =~= token_values(tokens(dl)).push(hex_or_dec(t)));
            assert(token_values(tokens(ps)).drop_last() =~= token_values(tokens(dl)));
        } else {
            assert(tokens(ps) == tokens(dl));
        }
    }
}

/// An offset list without brackets reads as the text, trimmed, split at
/// `+`, `,` and space, each piece trimmed, blank pieces left out, and each
/// remaining piece read as an offset: the offsets in order when all read,
/// else the error of the first that does not.
pub proof fn law_plain_offsets_collect(s: Seq<char>)
    requires
        !s.contains('['),
    ensures
        offsets_of(s) == collect_results(token_values(tokens(split_on(trim(s), seq!['+', ',', ' '])))),
{
    let t = trim(s);
    lemma_trim_end_within(trim_start(s), '[');
    lemma_trim_start_within(s, '[');
    lemma_plain_offsets_collect(split_on(t, seq!['+', ',', ' ']));
    if t.len() == 0 {
        reveal_with_fuel(Seq::<Seq<char>>::filter, 2);
        let ps = split_on(t, seq!['+', ',', ' ']);
        assert(ps =~= seq![Seq::<char>::empty()]);
        assert(trim(Seq::<char>::empty()) == Seq::<char>::empty());
        let m = ps.map_values(|p: Seq<char>| trim(p));
        assert(m =~= seq![Seq::<char>::empty()]);
        assert(m.drop_last() =~= Seq::<Seq<char>>::empty());
        assert(tokens(ps) =~= Seq::<Seq<char>>::empty());
        assert(token_values(tokens(ps)) =~= Seq::<Result<i64, Seq<char>>>::empty());
    }
}


/// `o.to_string()`: decimal digits, with `-` in front of a negative value.
pub open spec fn dec_text(o: i64) -> Seq<char> {
    if o < 0 {
        seq!['-'] + dec_digits((-o) as nat)
    } else {
        dec_digits(o as nat)
    }
}

/// A piece that an offset list holds as one token: not empty, and with no
/// whitespace, no `[` and no separator in it.
pub open spec fn plain_token(t: Seq<char>) -> bool {
    &&& t.len() > 0
    &&& forall|k: int| 0 <= k < t.len() ==> !is_white(#[trigger] t[k]) && t[k] != '[' && t[k] != '+'
        && t[k] != ',' && t[k] != ' '
}

proof fn lemma_dec_digits_value(v: nat, lo: int, hi: int)
    requires
        lo <= 0,
        v <= hi,
    ensures
        accumulate(dec_digits(v), 10, false, lo, hi) == Ok::<int, crate::number::IntErrorKind>(
            v as int,
        ),
        dec_digits(v).len() >= 1,
        forall|k: int| 0 <= k < dec_digits(v).len() ==> 48 <= (#[trigger] dec_digits(v)[k] as u32) <= 57,
    decreases v,
{
    let d = dec_digits(v);
    if v < 10 {
        assert(d =~= seq![dec_char(v)]);
        assert(d.drop_last() =~= Seq::<char>::empty());
        assert(accumulate(d.drop_last(), 10, false, lo, hi) == Ok::<int, crate::number::IntErrorKind>(0));
    } else {
        lemma_dec_digits_value(v / 10, lo, hi);
        assert(d.drop_last() =~= dec_digits(v / 10));
        assert(d.last() == dec_char(v % 10));
        assert((v / 10) * 10 + v % 10 == v);
        assert forall|k: int| 0 <= k < d.len() implies 48 <= (#[trigger] d[k] as u32) <= 57 by {
            if k < d.len() - 1 {
                assert(d[k] == dec_digits(v / 10)[k]);
            }
        }
    }
}

/// A decimal offset text reads back as its offset (every offset but
/// `i64::MIN`, whose text overflows before its sign applies).
pub proof fn law_offset_of_dec_text(o: i64)
    requires
        o != i64::MIN,
    ensures
        hex_or_dec(dec_text(o)) == Ok::<i64, Seq<char>>(o),
        plain_token(dec_text(o)),
{
    let m: i64 = if o < 0 { (-o) as i64 } else { o };
    let d = dec_digits(m as nat);
    lemma_dec_digits_value(m as nat, low_bound(true), high_bound(true));
    assert forall|k: int| 0 <= k < d.len() implies !is_white(#[trigger] d[k]) && d[k] != '[' && d[k] != '+'
        && d[k] != ',' && d[k] != ' ' && d[k] != '-' && d[k] != 'x' by {
        assert(48 <= (d[k] as u32) <= 57);
    }
    lemma_trim_no_white(d);
    assert(!has_hex_prefix(d)) by {
        if d.len() >= 2 {
            assert(48 <= (d[1] as u32) <= 57);
        }
    }
    assert(d[0] != '+' && d[0] != '-');
    assert(hex_or_dec(d) == Ok::<i64, Seq<char>>(m));
    if o < 0 {
        law_offset_negation(d, m);
        let t = seq!['-'] + d;
        assert forall|k: int| 0 <= k < t.len() implies !is_white(#[trigger] t[k]) && t[k] != '[' && t[k]
            != '+' && t[k] != ',' && t[k] != ' ' by {
            if k > 0 {
                assert(t[k] == d[k - 1]);
            }
        }
    }
}


/// Whether `c` separates the pieces of a plain offset list.
pub open spec fn is_list_sep(c: char) -> bool {
    c == '+' || c == ',' || c == ' '
}

proof fn lemma_list_seps(c: char)
    ensures
        seq!['+', ',', ' '].contains(c) <==> is_list_sep(c),
{
    let seps = seq!['+', ',', ' '];
    if is_list_sep(c) {
        if c == '+' {
            assert(seps[0] == c);
        } else if c == ',' {
            assert(seps[1] == c);
        } else {
            assert(seps[2] == c);
        }
    }
}

proof fn lemma_joined_split(items: Seq<Seq<char>>, sep: char)
    requires
        items.len() > 0,
        forall|i: int| 0 <= i < items.len() ==> plain_token(#[trigger] items[i]),
        sep == '+' || sep == ',',
    ensures
        split_on(joined(items, seq![sep]), seq!['+', ',', ' ']) == items,
        forall|k: int| 0 <= k < joined(items, seq![sep]).len() ==> !is_white(
            #[trigger] joined(items, seq![sep])[k],
        ) && joined(items, seq![sep])[k] != '[',
    decreases items.len(),
{
    let seps = seq!['+', ',', ' '];
    let last = items.last();
    assert(plain_token(last));
    assert forall|k: int| 0 <= k < last.len() implies !seps.contains(#[trigger] last[k]) by {
        lemma_list_seps(last[k]);
    }
    if items.len() == 1 {
        lemma_split_append(Seq::<char>::empty(), last, seps);
        assert(Seq::<char>::empty() + last =~= last);
        assert(split_on(last, seps) =~= items);
    } else {
        let dl = items.drop_last();
        assert forall|i: int| 0 <= i < dl.len() implies plain_token(#[trigger] dl[i]) by {
            assert(dl[i] == items[i]);
        }
        lemma_joined_split(dl, sep);
        let jd = joined(dl, seq![sep]);
        let j = joined(items, seq![sep]);
        assert(j =~= jd.push(sep) + last);
        lemma_list_seps(sep);
        lemma_split_append(jd.push(sep), last, seps);
        lemma_split_sep(jd, sep, seps);
        assert(split_on(j, seps) =~= dl.push(last));
        assert(dl.push(last) =~= items);
        assert forall|k: int| 0 <= k < j.len() implies !is_white(#[trigger] j[k]) && j[k] != '[' by {
            if k < jd.len() {
                assert(j[k] == jd[k]);
            } else if k > jd.len() {
                assert(j[k] == last[k - jd.len() - 1]);
            } else {
                assert(j[k] == sep);
            }
        }
    }
}

proof fn lemma_plain_values(items: Seq<Seq<char>>, vals: Seq<i64>)
    requires
        items.len() == vals.len(),
        forall|i: int| 0 <= i < items.len() ==> plain_token(#[trigger] items[i]),
        forall|i: int| 0 <= i < items.len() ==> hex_or_dec(#[trigger] items[i]) == Ok::<i64, Seq<char>>(vals[i]),
    ensures
        plain_offsets(items) == Ok::<Seq<i64>, Seq<char>>(vals),
    decreases items.len(),
{
    if items.len() > 0 {
        let n = items.len() - 1;
        assert(plain_token(items[n]));
        assert(hex_or_dec(items[n]) == Ok::<i64, Seq<char>>(vals[n]));
        lemma_plain_values(items.drop_last(), vals.drop_last());
        let t = items.last();
        assert forall|k: int| 0 <= k < t.len() implies !is_white(#[trigger] t[k]) by {}
        lemma_trim_no_white(t);
        assert(vals.drop_last().push(vals.last()) =~= vals);
    } else {
        assert(vals =~= Seq::<i64>::empty());
    }
}

/// Offset texts joined by one separator (`+` or `,`) read back as
/// their offsets, when each text reads as its offset and holds no
/// whitespace, `[` or separator.
pub proof fn law_joined_offsets_read_back(items: Seq<Seq<char>>, vals: Seq<i64>, sep: char)
    requires
        items.len() == vals.len(),
        sep == '+' || sep == ',',
        forall|i: int| 0 <= i < items.len() ==> plain_token(#[trigger] items[i]),
        forall|i: int| 0 <= i < items.len() ==> hex_or_dec(#[trigger] items[i]) == Ok::<i64, Seq<char>>(vals[i]),
    ensures
        offsets_of(joined(items, seq![sep])) == Ok::<Seq<i64>, Seq<char>>(vals),
{
    if items.len() == 0 {
        assert(vals =~= Seq::<i64>::empty());
        assert(trim(Seq::<char>::empty()) == Seq::<char>::empty());
    } else {
        lemma_joined_split(items, sep);
        let j = joined(items, seq![sep]);
        lemma_trim_no_white(j);
        lemma_plain_values(items, vals);
        assert(j.len() > 0) by {
            if items.len() > 1 {
                assert(j =~= joined(items.drop_last(), seq![sep]).push(sep) + items.last());
            } else {
                assert(plain_token(items[0]));
            }
        }
        if j.contains('[') {
            let k = choose|k: int| 0 <= k < j.len() && j[k] == '[';
            assert(j[k] != '[');
        }
    }
}

/// A list of offsets written with `to_string` and joined by `,` reads back
/// as those offsets (when none is `i64::MIN`).
pub proof fn law_decimal_list_reads_back(v: Seq<i64>)
    requires
        forall|i: int| 0 <= i < v.len() ==> #[trigger] v[i] != i64::MIN,
    ensures
        offsets_of(joined(v.map_values(|o: i64| dec_text(o)), seq![','])) == Ok::<Seq<i64>, Seq<char>>(v),
{
    let items = v.map_values(|o: i64| dec_text(o));
    assert forall|i: int| 0 <= i < items.len() implies plain_token(#[trigger] items[i]) && hex_or_dec(items[i])
        == Ok::<i64, Seq<char>>(v[i]) by {
        assert(v[i] != i64::MIN);
        law_offset_of_dec_text(v[i]);
    }
    law_joined_offsets_read_back(items, v, ',');
}

/// A list of non-negative offsets written with `{:#X}` and joined by `+`
/// reads back as those offsets.
pub proof fn law_hex_list_reads_back(v: Seq<i64>)
    requires
        forall|i: int| 0 <= i < v.len() ==> #[trigger] v[i] >= 0,
    ensures
        offsets_of(joined(v.map_values(|o: i64| hex_text(o as nat)), seq!['+'])) == Ok::<Seq<i64>, Seq<char>>(v),
{
    let items = v.map_values(|o: i64| hex_text(o as nat));
    assert forall|i: int| 0 <= i < items.len() implies plain_token(#[trigger] items[i]) && hex_or_dec(items[i])
        == Ok::<i64, Seq<char>>(v[i]) by {
        assert(v[i] >= 0);
        law_offset_of_hex_text(v[i]);
        lemma_hex_text_shape(v[i] as nat);
        let h = hex_text(v[i] as nat);
        assert forall|k: int| 0 <= k < h.len() implies !is_white(#[trigger] h[k]) && h[k] != '[' && h[k]
            != '+' && h[k] != ',' && h[k] != ' ' by {
            if k >= 2 {
                assert(is_hex_digit_char(h[k]));
            }
        }
    }
    law_joined_offsets_read_back(items, v, '+');
}

} // verus!
