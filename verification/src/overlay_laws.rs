//! What the overlay reads back of the query a flyby was opened with: the
//! tray's snooze and close actions get the same title, time and mascot as
//! the hover card.

use vstd::prelude::*;
use vstd::utf8::{decode_utf8, encode_utf8, valid_utf8};
use crate::calendar::tidied_title;
use crate::scheduler::{encode_byte, hex_digit, is_unreserved, percent_encoded};
use crate::text::{alnum_only, find, find_from, is_ascii_alnum, occurs_at, trim};
use crate::tick::{encoded, flyby_query_text, shown_title};
use crate::window::{
    ascii_bytes, full_key, lemma_decode_shift, lemma_encoded_ascii, mascot_key, param_bytes, param_decodable,
    param_decoded, param_valid, percent_decode_inverts_encode, percent_decode_splits_char_from, percent_decoded_from,
    piece_value, query_value, first_piece, time_key, title_key,
};

verus! {

/// `c` does not occur in `s`.
pub open spec fn lacks(s: Seq<char>, c: char) -> bool {
    forall|i: int| 0 <= i < s.len() ==> #[trigger] s[i] != c
}

proof fn lemma_find_char_from(t: Seq<char>, c: char, k: int, n: int)
    requires
        0 <= k <= n < t.len(),
        t[n] == c,
        forall|j: int| k <= j < n ==> #[trigger] t[j] != c,
    ensures
        find_from(t, seq![c], k) == Some(n),
    decreases n - k,
{
    assert(t.subrange(k, k + 1) =~= seq![t[k]]);
    if k < n {
        if occurs_at(t, seq![c], k) {
            assert(t.subrange(k, k + 1)[0] == t[k]);
            assert(seq![c][0] == c);
        }
        lemma_find_char_from(t, c, k + 1, n);
    } else {
        assert(occurs_at(t, seq![c], k));
    }
}

/// The first `c` of `a + [c] + b`, when `a` has none, is the one after `a`.
proof fn lemma_find_char(a: Seq<char>, b: Seq<char>, c: char)
    requires
        lacks(a, c),
    ensures
        find(a + seq![c] + b, seq![c]) == Some(a.len() as int),
{
    let t = a + seq![c] + b;
    assert forall|j: int| 0 <= j < a.len() implies #[trigger] t[j] != c by {
        assert(t[j] == a[j]);
    }
    lemma_find_char_from(t, c, 0, a.len() as int);
}

/// The piece `k=v`.
pub open spec fn piece(k: Seq<char>, v: Seq<char>) -> Seq<char> {
    k + seq!['='] + v
}

proof fn lemma_piece_value(k: Seq<char>, v: Seq<char>, key: Seq<char>)
    requires
        lacks(k, '='),
    ensures
        piece_value(piece(k, v), key) == if k == key { Some(v) } else { None::<Seq<char>> },
{
    lemma_find_char(k, v, '=');
    let p = piece(k, v);
    assert(p.take(k.len() as int) =~= k);
    assert(p.skip(k.len() as int + 1) =~= v);
}

/// Reading `key` from `k=v&rest`: `v` when `k` is the key, else what `rest`
/// gives.
proof fn lemma_query_piece(k: Seq<char>, v: Seq<char>, rest: Seq<char>, key: Seq<char>)
    requires
        lacks(k, '='),
        lacks(k, '&'),
        lacks(v, '&'),
    ensures
        query_value(piece(k, v) + seq!['&'] + rest, key) == if k == key {
            Some(v)
        } else {
            query_value(rest, key)
        },
{
    let p = piece(k, v);
    assert(lacks(p, '&')) by {
        assert forall|i: int| 0 <= i < p.len() implies #[trigger] p[i] != '&' by {
            if i < k.len() {
                assert(p[i] == k[i]);
            } else if i > k.len() {
                assert(p[i] == v[i - k.len() - 1]);
            }
        }
    }
    let q = p + seq!['&'] + rest;
    lemma_find_char(p, rest, '&');
    assert(q.take(p.len() as int) =~= p);
    assert(q.skip(p.len() as int + 1) =~= rest);
    assert(first_piece(q) == (p, Some(rest)));
    lemma_piece_value(k, v, key);
}

/// Reading `key` from the last piece `k=v`.
proof fn lemma_query_last(k: Seq<char>, v: Seq<char>, key: Seq<char>)
    requires
        lacks(k, '='),
        lacks(k, '&'),
        lacks(v, '&'),
    ensures
        query_value(piece(k, v), key) == if k == key { Some(v) } else { None::<Seq<char>> },
{
    let p = piece(k, v);
    assert forall|i: int| 0 <= i < p.len() implies #[trigger] p[i] != '&' by {
        if i < k.len() {
            assert(p[i] == k[i]);
        } else if i > k.len() {
            assert(p[i] == v[i - k.len() - 1]);
        }
    }
    assert forall|m: int| 0 <= m implies !occurs_at(p, seq!['&'], m) by {
        if m + 1 <= p.len() {
            assert(p.subrange(m, m + 1) =~= seq![p[m]]);
            if occurs_at(p, seq!['&'], m) {
                assert(p.subrange(m, m + 1)[0] == p[m]);
                assert(seq!['&'][0] == '&');
            }
        }
    }
    crate::text::lemma_find_from_occurs(p, seq!['&'], 0);
    assert(first_piece(p) == (p, None::<Seq<char>>));
    lemma_piece_value(k, v, key);
}

proof fn lemma_encode_byte_safe(b: u8)
    ensures
        lacks(encode_byte(b), '&'),
        lacks(encode_byte(b), '='),
{
    crate::window::lemma_hex_digit((b / 16) as int);
    crate::window::lemma_hex_digit((b % 16) as int);
    let h = encode_byte(b);
    if is_unreserved(b) {
        assert(h[0] == b as char);
        assert((b as char) != '&' && (b as char) != '=') by {
            assert(b != 0x26 && b != 0x3D);
        }
    }
    assert forall|i: int| 0 <= i < h.len() implies #[trigger] h[i] != '&' && h[i] != '=' by {
        if !is_unreserved(b) {
            if i == 1 {
                assert(h[1] == hex_digit((b / 16) as int));
            } else if i == 2 {
                assert(h[2] == hex_digit((b % 16) as int));
            }
        }
    }
}

/// Percent-encoded text holds neither `&` nor `=`.
proof fn lemma_encoded_safe(bs: Seq<u8>)
    ensures
        lacks(percent_encoded(bs), '&'),
        lacks(percent_encoded(bs), '='),
    decreases bs.len(),
{
    if bs.len() > 0 {
        lemma_encoded_safe(bs.drop_first());
        lemma_encode_byte_safe(bs[0]);
        let e = percent_encoded(bs);
        let h = encode_byte(bs[0]);
        assert forall|i: int| 0 <= i < e.len() implies #[trigger] e[i] != '&' && e[i] != '=' by {
            if i < h.len() {
                assert(e[i] == h[i]);
            } else {
                assert(e[i] == percent_encoded(bs.drop_first())[i - h.len()]);
            }
        }
    }
}

/// ASCII text without `%`.
pub open spec fn plain_ascii(s: Seq<char>) -> bool {
    forall|i: int| 0 <= i < s.len() ==> '\0' <= #[trigger] s[i] <= '\u{7f}' && s[i] != '%'
}

proof fn lemma_alnum_only(s: Seq<char>)
    ensures
        forall|i: int| 0 <= i < alnum_only(s).len() ==> is_ascii_alnum(#[trigger] alnum_only(s)[i]),
    decreases s.len(),
{
    if s.len() > 0 {
        lemma_alnum_only(s.drop_last());
        let a = alnum_only(s.drop_last());
        if is_ascii_alnum(s.last()) {
            assert forall|i: int| 0 <= i < a.push(s.last()).len() implies is_ascii_alnum(
                #[trigger] a.push(s.last())[i],
            ) by {
                if i < a.len() {
                    assert(a.push(s.last())[i] == a[i]);
                }
            }
        }
    }
}

/// Decoding the bytes of plain ASCII text changes nothing.
proof fn lemma_plain_decodes(s: Seq<char>, k: int)
    requires
        plain_ascii(s),
        0 <= k <= s.len(),
    ensures
        percent_decoded_from(ascii_bytes(s), k) == ascii_bytes(s).skip(k),
        !percent_decode_splits_char_from(ascii_bytes(s), k),
    decreases s.len() - k,
{
    let b = ascii_bytes(s);
    if k < s.len() {
        lemma_plain_decodes(s, k + 1);
        let c = s[k];
        assert(b[k] == #[verifier::truncate] (c as u8));
        assert(b[k] != 0x25) by {
            assert(c != '%');
            assert(c as u32 <= 0x7f);
            assert(c as u32 != 0x25);
            assert((#[verifier::truncate] (c as u8)) == c as u32);
        }
        assert(b.skip(k) =~= seq![b[k]] + b.skip(k + 1));
    } else {
        assert(b.skip(k) =~= Seq::<u8>::empty());
    }
}

/// The value of a piece made of plain ASCII text decodes to itself.
proof fn lemma_plain_param(s: Seq<char>)
    requires
        plain_ascii(s),
    ensures
        percent_decoded_from(encode_utf8(s), 0) == encode_utf8(s),
        !percent_decode_splits_char_from(encode_utf8(s), 0),
        valid_utf8(encode_utf8(s)),
        decode_utf8(encode_utf8(s)) == s,
{
    broadcast use vstd::utf8::group_utf8_lib;
    assert(vstd::utf8::is_ascii_chars(s)) by {
        assert forall|i: int| 0 <= i < s.len() implies '\0' <= #[trigger] s[i] <= '\u{7f}' by {
            assert('\0' <= s[i] <= '\u{7f}');
        }
    }
    assert(encode_utf8(s) =~= ascii_bytes(s));
    lemma_plain_decodes(s, 0);
    assert(ascii_bytes(s).skip(0) =~= ascii_bytes(s));
    percent_decode_inverts_encode(s);
}

proof fn lemma_lit_lacks()
    ensures
        lacks(seq!['m', 'o', 'd', 'e'], '&') && lacks(seq!['m', 'o', 'd', 'e'], '='),
        lacks(seq!['e', 'v', 'e', 'n', 't'], '&'),
        lacks(mascot_key(), '&') && lacks(mascot_key(), '='),
        lacks(title_key(), '&') && lacks(title_key(), '='),
        lacks(full_key(), '&') && lacks(full_key(), '='),
        lacks(time_key(), '&') && lacks(time_key(), '='),
{
}

/// The whole query `mode=event&mascot=m&title=e1&full=e2&time=time`.
pub open spec fn payload_query(
    mode: Seq<char>,
    event: Seq<char>,
    m: Seq<char>,
    e1: Seq<char>,
    e2: Seq<char>,
    time: Seq<char>,
) -> Seq<char> {
    piece(mode, event) + seq!['&'] + (piece(mascot_key(), m) + seq!['&'] + (piece(title_key(), e1) + seq!['&'] + (
    piece(full_key(), e2) + seq!['&'] + piece(time_key(), time))))
}

proof fn lemma_reads(
    mode: Seq<char>,
    event: Seq<char>,
    m: Seq<char>,
    e1: Seq<char>,
    e2: Seq<char>,
    time: Seq<char>,
    key: Seq<char>,
)
    requires
        mode == seq!['m', 'o', 'd', 'e'],
        event == seq!['e', 'v', 'e', 'n', 't'],
        lacks(m, '&'),
        lacks(e1, '&'),
        lacks(e2, '&'),
        lacks(time, '&'),
        key == full_key() || key == title_key() || key == time_key() || key == mascot_key(),
    ensures
        query_value(payload_query(mode, event, m, e1, e2, time), key) == Some(
            if key == mascot_key() {
                m
            } else if key == title_key() {
                e1
            } else if key == full_key() {
                e2
            } else {
                time
            },
        ),
{
    lemma_lit_lacks();
    let amp = seq!['&'];
    let last = piece(time_key(), time);
    let r3 = piece(full_key(), e2) + amp + last;
    let r2 = piece(title_key(), e1) + amp + r3;
    let r1 = piece(mascot_key(), m) + amp + r2;
    lemma_query_piece(mode, event, r1, key);
    lemma_query_piece(mascot_key(), m, r2, key);
    lemma_query_piece(title_key(), e1, r3, key);
    lemma_query_piece(full_key(), e2, last, key);
    lemma_query_last(time_key(), time, key);
    assert(mode != key) by {
        assert(mode.len() != key.len() || mode[0] != key[0]);
    }
    if key != mascot_key() {
        assert(mascot_key() != key);
    }
    if key != title_key() {
        assert(title_key() != key);
    }
    if key != full_key() {
        assert(full_key() != key);
    }
    if key == mascot_key() {
        assert(title_key() != key && full_key() != key && time_key() != key) by {
            assert(title_key().len() != key.len() && full_key().len() != key.len() && time_key().len() != key.len());
        }
    } else if key == title_key() {
        assert(full_key() != key && time_key() != key) by {
            assert(full_key().len() != key.len() && time_key().len() != key.len());
        }
    } else if key == full_key() {
        assert(time_key() != key) by {
            assert(time_key()[0] != key[0]);
        }
    }
}

/// The tray gets what the hover card shows: from the query of a meeting's
/// flyby, the overlay reads back the full title (the default one for a
/// blank title), the tidied title, the start time and the mascot, each
/// without slicing a character. The time is plain ASCII text without `&`
/// or `%`, as the clock writes it.
pub proof fn flyby_payload_reads_back(title: Seq<char>, language: Seq<char>, mascot: Seq<char>, time: Seq<char>)
    requires
        plain_ascii(time),
        lacks(time, '&'),
    ensures
        ({
            let q = flyby_query_text(title, language, mascot, time);
            &&& param_decodable(q, full_key())
            &&& param_decodable(q, title_key())
            &&& param_decodable(q, time_key())
            &&& param_decodable(q, mascot_key())
            &&& param_valid(q, full_key())
            &&& param_valid(q, title_key())
            &&& param_valid(q, time_key())
            &&& param_valid(q, mascot_key())
            &&& param_decoded(q, full_key()) == shown_title(title, language)
            &&& param_decoded(q, title_key()) == tidied_title(shown_title(title, language))
            &&& param_decoded(q, time_key()) == time
            &&& param_decoded(q, mascot_key()) == alnum_only(mascot)
        }),
{
    let t = shown_title(title, language);
    let m = alnum_only(mascot);
    let e1 = encoded(tidied_title(t));
    let e2 = encoded(t);
    let q = flyby_query_text(title, language, mascot, time);
    reveal_strlit("mode=event&mascot=");
    reveal_strlit("&title=");
    reveal_strlit("&full=");
    reveal_strlit("&time=");
    let mode = seq!['m', 'o', 'd', 'e'];
    let event = seq!['e', 'v', 'e', 'n', 't'];
    assert(q =~= payload_query(mode, event, m, e1, e2, time));
    lemma_lit_lacks();
    lemma_encoded_safe(encode_utf8(tidied_title(t)));
    lemma_encoded_safe(encode_utf8(t));
    lemma_alnum_only(mascot);
    assert(lacks(m, '&')) by {
        assert forall|i: int| 0 <= i < m.len() implies #[trigger] m[i] != '&' by {
            assert(is_ascii_alnum(m[i]));
        }
    }
    assert(plain_ascii(m)) by {
        assert forall|i: int| 0 <= i < m.len() implies '\0' <= #[trigger] m[i] <= '\u{7f}' && m[i] != '%' by {
            assert(is_ascii_alnum(m[i]));
        }
    }
    lemma_reads(mode, event, m, e1, e2, time, full_key());
    lemma_reads(mode, event, m, e1, e2, time, title_key());
    lemma_reads(mode, event, m, e1, e2, time, time_key());
    lemma_reads(mode, event, m, e1, e2, time, mascot_key());
    percent_decode_inverts_encode(t);
    percent_decode_inverts_encode(tidied_title(t));
    lemma_plain_param(time);
    lemma_plain_param(m);
    assert(param_bytes(q, full_key()) == Some(encode_utf8(t)));
}

} // verus!

verus! {

/// The whole query `mode=event&mascot=m&title=e1&time=e2`.
pub open spec fn snooze_payload_query(mode: Seq<char>, event: Seq<char>, m: Seq<char>, e1: Seq<char>, e2: Seq<char>) -> Seq<
    char,
> {
    piece(mode, event) + seq!['&'] + (piece(mascot_key(), m) + seq!['&'] + (piece(title_key(), e1) + seq!['&'] + piece(
        time_key(),
        e2,
    )))
}

proof fn lemma_snooze_reads(mode: Seq<char>, event: Seq<char>, m: Seq<char>, e1: Seq<char>, e2: Seq<char>, key: Seq<char>)
    requires
        mode == seq!['m', 'o', 'd', 'e'],
        event == seq!['e', 'v', 'e', 'n', 't'],
        lacks(m, '&'),
        lacks(e1, '&'),
        lacks(e2, '&'),
        key == full_key() || key == title_key() || key == time_key() || key == mascot_key(),
    ensures
        query_value(snooze_payload_query(mode, event, m, e1, e2), key) == if key == mascot_key() {
            Some(m)
        } else if key == title_key() {
            Some(e1)
        } else if key == time_key() {
            Some(e2)
        } else {
            None::<Seq<char>>
        },
{
    lemma_lit_lacks();
    let amp = seq!['&'];
    let last = piece(time_key(), e2);
    let r2 = piece(title_key(), e1) + amp + last;
    let r1 = piece(mascot_key(), m) + amp + r2;
    lemma_query_piece(mode, event, r1, key);
    lemma_query_piece(mascot_key(), m, r2, key);
    lemma_query_piece(title_key(), e1, last, key);
    lemma_query_last(time_key(), e2, key);
    assert(mode != key) by {
        assert(mode.len() != key.len() || mode[0] != key[0]);
    }
    if key == mascot_key() {
        assert(title_key() != key && time_key() != key) by {
            assert(title_key().len() != key.len() && time_key().len() != key.len());
        }
    } else if key == title_key() {
        assert(mascot_key() != key && time_key() != key) by {
            assert(mascot_key().len() != key.len() && time_key().len() != key.len());
        }
    } else if key == time_key() {
        assert(mascot_key() != key && title_key() != key) by {
            assert(mascot_key().len() != key.len() && title_key().len() != key.len());
        }
    } else {
        assert(mascot_key() != key && title_key() != key && time_key() != key) by {
            assert(mascot_key().len() != key.len() && title_key().len() != key.len());
            assert(time_key()[0] != key[0]);
        }
    }
}

/// A snoozed flyby flies with the payload it was snoozed with: from the
/// snooze query the overlay reads back the cleaned title, the time cut to
/// 16 characters and the mascot, each without slicing a character.
pub proof fn snooze_payload_reads_back(title: Seq<char>, time: Seq<char>, mascot: Seq<char>)
    ensures
        ({
            let q = crate::cmd::snooze_query_text(title, time, mascot);
            let cut = if time.len() <= crate::cmd::SNOOZE_TIME_CHARS {
                time
            } else {
                time.take(crate::cmd::SNOOZE_TIME_CHARS as int)
            };
            &&& param_decodable(q, full_key())
            &&& param_decodable(q, title_key())
            &&& param_decodable(q, time_key())
            &&& param_decodable(q, mascot_key())
            &&& param_valid(q, full_key())
            &&& param_valid(q, title_key())
            &&& param_valid(q, time_key())
            &&& param_valid(q, mascot_key())
            &&& param_decoded(q, full_key()).len() == 0
            &&& param_decoded(q, title_key()) == crate::calendar::sanitized_title(title)
            &&& param_decoded(q, time_key()) == cut
            &&& param_decoded(q, mascot_key()) == alnum_only(mascot)
        }),
{
    let cut = if time.len() <= crate::cmd::SNOOZE_TIME_CHARS {
        time
    } else {
        time.take(crate::cmd::SNOOZE_TIME_CHARS as int)
    };
    let t = crate::calendar::sanitized_title(title);
    let m = alnum_only(mascot);
    let e1 = encoded(t);
    let e2 = encoded(cut);
    let q = crate::cmd::snooze_query_text(title, time, mascot);
    reveal_strlit("mode=event&mascot=");
    reveal_strlit("&title=");
    reveal_strlit("&time=");
    let mode = seq!['m', 'o', 'd', 'e'];
    let event = seq!['e', 'v', 'e', 'n', 't'];
    assert(q =~= snooze_payload_query(mode, event, m, e1, e2));
    lemma_encoded_safe(encode_utf8(t));
    lemma_encoded_safe(encode_utf8(cut));
    lemma_alnum_only(mascot);
    assert(lacks(m, '&')) by {
        assert forall|i: int| 0 <= i < m.len() implies #[trigger] m[i] != '&' by {
            assert(is_ascii_alnum(m[i]));
        }
    }
    assert(plain_ascii(m)) by {
        assert forall|i: int| 0 <= i < m.len() implies '\0' <= #[trigger] m[i] <= '\u{7f}' && m[i] != '%' by {
            assert(is_ascii_alnum(m[i]));
        }
    }
    lemma_snooze_reads(mode, event, m, e1, e2, full_key());
    lemma_snooze_reads(mode, event, m, e1, e2, title_key());
    lemma_snooze_reads(mode, event, m, e1, e2, time_key());
    lemma_snooze_reads(mode, event, m, e1, e2, mascot_key());
    percent_decode_inverts_encode(t);
    percent_decode_inverts_encode(cut);
    lemma_plain_param(m);
}

} // verus!
