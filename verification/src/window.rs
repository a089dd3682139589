//! Reading back the query a flyby overlay was opened with.

use vstd::prelude::*;
use vstd::utf8::{decode_utf8, encode_utf8, is_continuation_byte, valid_utf8};
use crate::scheduler::{encode_byte, hex_digit, is_unreserved, percent_encoded};
use crate::text::{chars_of, find, find_chars, lemma_find_from_occurs, occurs_at, same_text, slice_chars, string_of};

verus! {

/// Value of an ASCII hexadecimal digit (either case).
pub open spec fn hex_value(b: u8) -> Option<u8> {
    if 0x30 <= b && b <= 0x39 {
        Some((b - 0x30) as u8)
    } else if 0x61 <= b && b <= 0x66 {
        Some((b - 0x61 + 10) as u8)
    } else if 0x41 <= b && b <= 0x46 {
        Some((b - 0x41 + 10) as u8)
    } else {
        None
    }
}

/// `u8::from_str_radix(x, 16)` for the two-byte text `b1 b2`: an optional
/// leading `+`, then hexadecimal digits.
pub open spec fn parse_hex_pair(b1: u8, b2: u8) -> Option<u8> {
    if b1 == 0x2B {
        hex_value(b2)
    } else {
        match (hex_value(b1), hex_value(b2)) {
            (Some(h), Some(l)) => Some((h * 16 + l) as u8),
            _ => None,
        }
    }
}

/// The bytes of `b` from `i` on with every decodable `%XX` replaced by its byte.
pub open spec fn percent_decoded_from(b: Seq<u8>, i: int) -> Seq<u8>
    decreases b.len() - i,
{
    if i < 0 || i >= b.len() {
        Seq::empty()
    } else if b[i] == 0x25 && i + 2 < b.len() && parse_hex_pair(b[i + 1], b[i + 2]) is Some {
        seq![parse_hex_pair(b[i + 1], b[i + 2])->0] + percent_decoded_from(b, i + 3)
    } else {
        seq![b[i]] + percent_decoded_from(b, i + 1)
    }
}

/// Decoding from `i` on would slice the text inside a character: a `%`
/// with two more bytes whose third byte continues a character.
pub open spec fn percent_decode_splits_char_from(b: Seq<u8>, i: int) -> bool
    decreases b.len() - i,
{
    if i < 0 || i >= b.len() {
        false
    } else if b[i] == 0x25 && i + 2 < b.len() {
        if i + 3 < b.len() && is_continuation_byte(b[i + 3]) {
            true
        } else if parse_hex_pair(b[i + 1], b[i + 2]) is Some {
            percent_decode_splits_char_from(b, i + 3)
        } else {
            percent_decode_splits_char_from(b, i + 1)
        }
    } else {
        percent_decode_splits_char_from(b, i + 1)
    }
}

/// What `String::from_utf8_lossy` makes of `bytes`.
pub uninterp spec fn utf8_lossy(bytes: Seq<u8>) -> Seq<char>;

/// `String::from_utf8_lossy(..).into_owned()`: invalid sequences become
/// U+FFFD; valid UTF-8 is decoded as it is (as the documentation states).
#[verifier::external_body]
fn from_utf8_lossy(bytes: &Vec<u8>) -> (s: String)
    ensures
        s@ == utf8_lossy(bytes@),
        valid_utf8(bytes@) ==> s@ == decode_utf8(bytes@),
{
    String::from_utf8_lossy(bytes).into_owned()
}

fn hex_value_exec(b: u8) -> (r: Option<u8>)
    ensures
        r == hex_value(b),
{
    if 0x30 <= b && b <= 0x39 {
        Some(b - 0x30)
    } else if 0x61 <= b && b <= 0x66 {
        Some(b - 0x61 + 10)
    } else if 0x41 <= b && b <= 0x46 {
        Some(b - 0x41 + 10)
    } else {
        None
    }
}

fn parse_hex_pair_exec(b1: u8, b2: u8) -> (r: Option<u8>)
    ensures
        r == parse_hex_pair(b1, b2),
{
    if b1 == 0x2B {
        hex_value_exec(b2)
    } else {
        match (hex_value_exec(b1), hex_value_exec(b2)) {
            (Some(h), Some(l)) => Some(h * 16 + l),
            _ => None,
        }
    }
}

/// Percent-decoding, the inverse of `percent_encode`: every `%XX` with two
/// more bytes after the `%` that parse as a hexadecimal byte becomes that
/// byte, everything else stays; the bytes are then read as UTF-8, invalid
/// sequences becoming U+FFFD.
pub fn percent_decode(s: &str) -> (r: String)
    requires
        !percent_decode_splits_char_from(encode_utf8(s@), 0),
    ensures
        r@ == utf8_lossy(percent_decoded_from(encode_utf8(s@), 0)),
        valid_utf8(percent_decoded_from(encode_utf8(s@), 0)) ==> r@ == decode_utf8(
            percent_decoded_from(encode_utf8(s@), 0),
        ),
{
    let bytes = s.as_bytes();
    let ghost b = bytes@;
    let mut out: Vec<u8> = Vec::new();
    let mut i: usize = 0;
    while i < bytes.len()
        invariant
            i <= bytes@.len(),
            b == bytes@,
            b == encode_utf8(s@),
            out@ + percent_decoded_from(b, i as int) == percent_decoded_from(b, 0),
            !percent_decode_splits_char_from(b, i as int),
        decreases bytes.len() - i,
    {
        if bytes[i] == 0x25 && bytes.len() - i > 2 {
            if let Some(v) = parse_hex_pair_exec(bytes[i + 1], bytes[i + 2]) {
                assert(out@.push(v) + percent_decoded_from(b, i + 3) =~= out@ + percent_decoded_from(b, i as int));
                out.push(v);
                i += 3;
                continue;
            }
        }
        assert(out@.push(b[i as int]) + percent_decoded_from(b, i + 1) =~= out@ + percent_decoded_from(b, i as int));
        out.push(bytes[i]);
        i += 1;
    }
    assert(out@ =~= percent_decoded_from(b, 0));
    from_utf8_lossy(&out)
}

/// Whether decoding `s` would slice the text inside a character (a `%`
/// whose third byte after it continues a character), the input on which
/// `percent_decode` is not defined.
pub fn percent_decode_splits_char(s: &str) -> (b: bool)
    ensures
        b == percent_decode_splits_char_from(encode_utf8(s@), 0),
{
    let bytes = s.as_bytes();
    let mut i: usize = 0;
    while i < bytes.len()
        invariant
            i <= bytes@.len(),
            bytes@ == encode_utf8(s@),
            percent_decode_splits_char_from(bytes@, 0) == percent_decode_splits_char_from(bytes@, i as int),
        decreases bytes.len() - i,
    {
        if bytes[i] == 0x25 && bytes.len() - i > 2 {
            if bytes.len() - i > 3 && 0x80 <= bytes[i + 3] && bytes[i + 3] <= 0xbf {
                return true;
            }
            if parse_hex_pair_exec(bytes[i + 1], bytes[i + 2]).is_some() {
                i += 3;
                continue;
            }
        }
        i += 1;
    }
    false
}

/// `percent_decode` for any input: `None` exactly when decoding would
/// slice the text inside a character.
pub fn percent_decode_checked(s: &str) -> (r: Option<String>)
    ensures
        r is None <==> percent_decode_splits_char_from(encode_utf8(s@), 0),
        r matches Some(d) ==> d@ == utf8_lossy(percent_decoded_from(encode_utf8(s@), 0)),
{
    if percent_decode_splits_char(s) {
        None
    } else {
        Some(percent_decode(s))
    }
}

/// The pieces of a query: the first piece (up to `&`) and what follows it.
pub open spec fn first_piece(q: Seq<char>) -> (Seq<char>, Option<Seq<char>>) {
    match find(q, seq!['&']) {
        Some(i) => (q.take(i), Some(q.skip(i + 1))),
        None => (q, None),
    }
}

/// The value of `key` in one `key=value` piece.
pub open spec fn piece_value(piece: Seq<char>, key: Seq<char>) -> Option<Seq<char>> {
    match find(piece, seq!['=']) {
        Some(j) => if piece.take(j) == key {
            Some(piece.skip(j + 1))
        } else {
            None
        },
        None => None,
    }
}

/// The raw value of the first `key=value` piece of the query `q` with this key.
pub open spec fn query_value(q: Seq<char>, key: Seq<char>) -> Option<Seq<char>>
    decreases q.len(),
{
    let (piece, rest) = first_piece(q);
    match piece_value(piece, key) {
        Some(v) => Some(v),
        None => match rest {
            Some(r) => {
                proof {
                    lemma_find_from_occurs(q, seq!['&'], 0);
                }
                if r.len() < q.len() {
                    query_value(r, key)
                } else {
                    None
                }
            },
            None => None,
        },
    }
}

fn piece_value_exec(piece: &Vec<char>, key: &Vec<char>) -> (r: Option<Vec<char>>)
    ensures
        match r {
            Some(v) => piece_value(piece@, key@) == Some(v@),
            None => piece_value(piece@, key@) is None,
        },
{
    let eq: Vec<char> = vec!['='];
    proof {
        assert(eq@ =~= seq!['=']);
        lemma_find_from_occurs(piece@, eq@, 0);
    }
    match find_chars(piece, &eq) {
        Some(j) => {
            assert(occurs_at(piece@, eq@, j as int));
            let k = slice_chars(piece, 0, j);
            assert(k@ =~= piece@.take(j as int));
            let mut same = k.len() == key.len();
            let mut m: usize = 0;
            while same && m < k.len()
                invariant
                    m <= k.len(),
                    same ==> k.len() == key.len(),
                    same ==> forall|x: int| 0 <= x < m ==> k@[x] == key@[x],
                    !same ==> k@ != key@,
                decreases k.len() - m,
            {
                if k[m] != key[m] {
                    same = false;
                }
                m += 1;
            }
            if same {
                assert(k@ =~= key@);
                let pl = piece.len();
                assert(j + 1 <= pl);
                let v = slice_chars(piece, j + 1, pl);
                assert(v@ =~= piece@.skip(j + 1));
                Some(v)
            } else {
                None
            }
        },
        None => None,
    }
}

/// The value of `key` in `query` as written, before decoding.
fn query_raw_value(query: &str, key: &str) -> (r: Option<String>)
    ensures
        match r {
            Some(v) => query_value(query@, key@) == Some(v@),
            None => query_value(query@, key@) is None,
        },
{
    let q = chars_of(query);
    let k = chars_of(key);
    let amp: Vec<char> = vec!['&'];
    assert(amp@ =~= seq!['&']);
    let mut rest = q;
    loop
        invariant
            k@ == key@,
            amp@ == seq!['&'],
            query_value(rest@, key@) == query_value(query@, key@),
        decreases rest@.len(),
    {
        proof {
            lemma_find_from_occurs(rest@, amp@, 0);
        }
        let ghost r0 = rest@;
        let (piece, next) = match find_chars(&rest, &amp) {
            Some(i) => {
                assert(occurs_at(rest@, amp@, i as int));
                let rl = rest.len();
                assert(i + 1 <= rl);
                let p = slice_chars(&rest, 0, i);
                let n = slice_chars(&rest, i + 1, rl);
                assert(p@ =~= rest@.take(i as int));
                assert(n@ =~= rest@.skip(i + 1));
                (p, Some(n))
            },
            None => (rest, None),
        };
        assert(first_piece(r0).0 == piece@);
        assert(match next {
            Some(n) => first_piece(r0).1 == Some(n@),
            None => first_piece(r0).1 is None,
        });
        match piece_value_exec(&piece, &k) {
            Some(v) => {
                assert(query_value(r0, key@) == Some(v@));
                return Some(string_of(&v));
            },
            None => {},
        }
        match next {
            Some(n) => {
                assert(n@.len() < r0.len());
                assert(query_value(r0, key@) == query_value(n@, key@));
                rest = n;
            },
            None => {
                return None;
            },
        }
    }
}

/// The value of `key` in the query `q` (pairs `key=value` joined by `&`),
/// percent-decoded; empty when the key is missing.
pub fn query_param(query: &str, key: &str) -> (r: String)
    requires
        query_value(query@, key@) matches Some(v) ==> !percent_decode_splits_char_from(encode_utf8(v), 0),
    ensures
        r@ == match query_value(query@, key@) {
            Some(v) => utf8_lossy(percent_decoded_from(encode_utf8(v), 0)),
            None => Seq::empty(),
        },
        param_valid(query@, key@) ==> r@ == param_decoded(query@, key@),
{
    match query_raw_value(query, key) {
        Some(v) => percent_decode(v.as_str()),
        None => String::new(),
    }
}

/// `query_param` for any input: `None` exactly when the value of `key`
/// would be sliced inside a character by decoding.
pub fn query_param_checked(query: &str, key: &str) -> (r: Option<String>)
    ensures
        r is None <==> !param_decodable(query@, key@),
        r matches Some(d) ==> d@ == param_text(query@, key@),
{
    match query_raw_value(query, key) {
        Some(v) => {
            if percent_decode_splits_char(v.as_str()) {
                None
            } else {
                Some(percent_decode(v.as_str()))
            }
        },
        None => Some(String::new()),
    }
}

/// Decoding depends only on the bytes from `k` on.
pub proof fn lemma_decode_shift(x: Seq<u8>, k: int)
    requires
        0 <= k <= x.len(),
    ensures
        percent_decoded_from(x, k) == percent_decoded_from(x.skip(k), 0),
        percent_decode_splits_char_from(x, k) == percent_decode_splits_char_from(x.skip(k), 0),
    decreases x.len() - k,
{
    let y = x.skip(k);
    if k < x.len() {
        if x[k] == 0x25 && k + 2 < x.len() {
            assert(y[0] == x[k] && y[1] == x[k + 1] && y[2] == x[k + 2]);
            if k + 3 < x.len() {
                assert(y[3] == x[k + 3]);
            }
            lemma_decode_shift(x, k + 3);
            lemma_decode_shift(x, k + 1);
            lemma_decode_shift(y, 3);
            lemma_decode_shift(y, 1);
            assert(y.skip(3) =~= x.skip(k + 3));
            assert(y.skip(1) =~= x.skip(k + 1));
        } else {
            assert(y[0] == x[k]);
            lemma_decode_shift(x, k + 1);
            lemma_decode_shift(y, 1);
            assert(y.skip(1) =~= x.skip(k + 1));
        }
    }
}

/// The bytes of ASCII characters.
pub open spec fn ascii_bytes(cs: Seq<char>) -> Seq<u8> {
    cs.map_values(|c: char| c as u8)
}

pub proof fn lemma_hex_digit(n: int)
    requires
        0 <= n < 16,
    ensures
        '\0' <= hex_digit(n) <= '\u{7f}',
        hex_value(hex_digit(n) as u8) == Some(n as u8),
        hex_digit(n) as u8 != 0x2B,
{
}

proof fn lemma_encode_byte_ascii(b: u8)
    ensures
        forall|i: int| 0 <= i < encode_byte(b).len() ==> '\0' <= (#[trigger] encode_byte(b)[i]) <= '\u{7f}',
{
    lemma_hex_digit((b / 16) as int);
    lemma_hex_digit((b % 16) as int);
}

pub proof fn lemma_encoded_ascii(bs: Seq<u8>)
    ensures
        forall|i: int| 0 <= i < percent_encoded(bs).len() ==> '\0' <= (#[trigger] percent_encoded(bs)[i]) <= '\u{7f}',
    decreases bs.len(),
{
    if bs.len() > 0 {
        lemma_encoded_ascii(bs.drop_first());
        lemma_encode_byte_ascii(bs[0]);
        let e = percent_encoded(bs);
        let h = encode_byte(bs[0]);
        assert forall|i: int| 0 <= i < e.len() implies '\0' <= (#[trigger] e[i]) <= '\u{7f}' by {
            if i < h.len() {
                assert(e[i] == h[i]);
            } else {
                assert(e[i] == percent_encoded(bs.drop_first())[i - h.len()]);
            }
        }
    }
}

/// Decoding the bytes of an encoding gives back the encoded bytes, and
/// never slices inside a character.
proof fn lemma_decode_encoded(bs: Seq<u8>)
    ensures
        percent_decoded_from(ascii_bytes(percent_encoded(bs)), 0) == bs,
        !percent_decode_splits_char_from(ascii_bytes(percent_encoded(bs)), 0),
    decreases bs.len(),
{
    if bs.len() == 0 {
        assert(ascii_bytes(percent_encoded(bs)).len() == 0);
    } else {
        let b = bs[0];
        let rest = bs.drop_first();
        let h = encode_byte(b);
        let x = ascii_bytes(percent_encoded(bs));
        let tail = ascii_bytes(percent_encoded(rest));
        lemma_decode_encoded(rest);
        lemma_encoded_ascii(rest);
        assert(x =~= ascii_bytes(h) + tail);
        lemma_decode_shift(x, h.len() as int);
        assert(x.skip(h.len() as int) =~= tail);
        if is_unreserved(b) {
            assert(x[0] == b);
        } else {
            lemma_hex_digit((b / 16) as int);
            lemma_hex_digit((b % 16) as int);
            assert(x[0] == 0x25);
            assert(x[1] == hex_digit((b / 16) as int) as u8);
            assert(x[2] == hex_digit((b % 16) as int) as u8);
            assert(parse_hex_pair(x[1], x[2]) == Some(b));
            if 3 < x.len() {
                assert(x[3] == tail[0]);
                assert(percent_encoded(rest)[0] <= '\u{7f}');
            }
        }
        assert(percent_decoded_from(x, 0) =~= bs);
    }
}

/// Percent-decoding undoes percent-encoding: for every text `s`, the bytes
/// of `percent_encode(s)` decode without slicing a character back into the
/// UTF-8 bytes of `s`, which are valid and read back as `s` (so
/// `percent_decode(&percent_encode(s)) == s`).
pub proof fn percent_decode_inverts_encode(s: Seq<char>)
    ensures
        !percent_decode_splits_char_from(encode_utf8(percent_encoded(encode_utf8(s))), 0),
        percent_decoded_from(encode_utf8(percent_encoded(encode_utf8(s))), 0) == encode_utf8(s),
        valid_utf8(encode_utf8(s)),
        decode_utf8(encode_utf8(s)) == s,
{
    broadcast use vstd::utf8::group_utf8_lib;
    let bs = encode_utf8(s);
    let e = percent_encoded(bs);
    lemma_encoded_ascii(bs);
    assert forall|i: int| 0 <= i < e.len() implies '\0' <= #[trigger] e[i] <= '\u{7f}' by {
        assert(e[i] <= '\u{7f}');
    }
    assert(vstd::utf8::is_ascii_chars(e));
    assert(encode_utf8(e) =~= ascii_bytes(e));
    lemma_decode_encoded(bs);
}

} // verus!

verus! {

/// The payload of the flyby in the air, which the tray actions need too.
#[derive(Clone, Debug)]
pub struct OverlayInfo {
    pub title: String,
    pub time: String,
    pub mascot: String,
}

impl Default for OverlayInfo {
    fn default() -> (r: OverlayInfo)
        ensures
            r.title@.len() == 0,
            r.time@.len() == 0,
            r.mascot@.len() == 0,
    {
        OverlayInfo { title: String::new(), time: String::new(), mascot: String::new() }
    }
}

impl OverlayInfo {
    /// A field-by-field copy.
    pub fn copy_of(&self) -> (r: OverlayInfo)
        ensures
            r == *self,
    {
        OverlayInfo { title: self.title.clone(), time: self.time.clone(), mascot: self.mascot.clone() }
    }
}

/// The decoded value of `key` in the query `q`, empty when it is missing.
pub open spec fn param_text(q: Seq<char>, key: Seq<char>) -> Seq<char> {
    match query_value(q, key) {
        Some(v) => utf8_lossy(percent_decoded_from(encode_utf8(v), 0)),
        None => Seq::empty(),
    }
}

/// The decoded bytes of the value of `key` in `q`, if it is there.
pub open spec fn param_bytes(q: Seq<char>, key: Seq<char>) -> Option<Seq<u8>> {
    match query_value(q, key) {
        Some(v) => Some(percent_decoded_from(encode_utf8(v), 0)),
        None => None,
    }
}

/// The decoded bytes of the value of `key` are valid UTF-8 (or it is missing).
pub open spec fn param_valid(q: Seq<char>, key: Seq<char>) -> bool {
    match param_bytes(q, key) {
        Some(b) => valid_utf8(b),
        None => true,
    }
}

/// The text the value of `key` decodes to, empty when it is missing.
pub open spec fn param_decoded(q: Seq<char>, key: Seq<char>) -> Seq<char> {
    match param_bytes(q, key) {
        Some(b) => decode_utf8(b),
        None => Seq::empty(),
    }
}

/// The value of `key` in `q` decodes without slicing a character.
pub open spec fn param_decodable(q: Seq<char>, key: Seq<char>) -> bool {
    query_value(q, key) matches Some(v) ==> !percent_decode_splits_char_from(encode_utf8(v), 0)
}

pub open spec fn full_key() -> Seq<char> {
    seq!['f', 'u', 'l', 'l']
}

pub open spec fn title_key() -> Seq<char> {
    seq!['t', 'i', 't', 'l', 'e']
}

pub open spec fn time_key() -> Seq<char> {
    seq!['t', 'i', 'm', 'e']
}

pub open spec fn mascot_key() -> Seq<char> {
    seq!['m', 'a', 's', 'c', 'o', 't']
}

/// What the tray shows of a flyby opened with `query`: the full title when
/// the query carries one, else the tidied title; its time; its mascot.
pub fn overlay_info_from_query(query: &str) -> (r: OverlayInfo)
    requires
        param_decodable(query@, full_key()),
        param_decodable(query@, title_key()),
        param_decodable(query@, time_key()),
        param_decodable(query@, mascot_key()),
    ensures
        r.title@ == if param_text(query@, full_key()).len() > 0 {
            param_text(query@, full_key())
        } else {
            param_text(query@, title_key())
        },
        r.time@ == param_text(query@, time_key()),
        r.mascot@ == param_text(query@, mascot_key()),
        param_valid(query@, full_key()) && param_valid(query@, title_key()) ==> r.title@ == if param_decoded(
            query@,
            full_key(),
        ).len() > 0 {
            param_decoded(query@, full_key())
        } else {
            param_decoded(query@, title_key())
        },
        param_valid(query@, time_key()) ==> r.time@ == param_decoded(query@, time_key()),
        param_valid(query@, mascot_key()) ==> r.mascot@ == param_decoded(query@, mascot_key()),
{
    proof {
        reveal_strlit("full");
        reveal_strlit("title");
        reveal_strlit("time");
        reveal_strlit("mascot");
        assert("full"@ =~= full_key());
        assert("title"@ =~= title_key());
        assert("time"@ =~= time_key());
        assert("mascot"@ =~= mascot_key());
    }
    let full = query_param(query, "full");
    let title = if full.as_str().unicode_len() == 0 {
        query_param(query, "title")
    } else {
        full
    };
    OverlayInfo { title, time: query_param(query, "time"), mascot: query_param(query, "mascot") }
}

/// Every value the tray reads of a flyby's query decodes without slicing
/// a character.
pub open spec fn overlay_decodable(q: Seq<char>) -> bool {
    &&& param_decodable(q, full_key())
    &&& param_decodable(q, title_key())
    &&& param_decodable(q, time_key())
    &&& param_decodable(q, mascot_key())
}

/// `overlay_info_from_query` for any query: `None` exactly when one of the
/// values it reads would be sliced inside a character by decoding.
pub fn overlay_info_from_query_checked(query: &str) -> (r: Option<OverlayInfo>)
    ensures
        r is None <==> !overlay_decodable(query@),
        r matches Some(info) ==> {
            &&& info.title@ == if param_text(query@, full_key()).len() > 0 {
                param_text(query@, full_key())
            } else {
                param_text(query@, title_key())
            }
            &&& info.time@ == param_text(query@, time_key())
            &&& info.mascot@ == param_text(query@, mascot_key())
        },
{
    proof {
        reveal_strlit("full");
        reveal_strlit("title");
        reveal_strlit("time");
        reveal_strlit("mascot");
        assert("full"@ =~= full_key());
        assert("title"@ =~= title_key());
        assert("time"@ =~= time_key());
        assert("mascot"@ =~= mascot_key());
    }
    let a = query_param_checked(query, "full");
    let b = query_param_checked(query, "title");
    let c = query_param_checked(query, "time");
    let d = query_param_checked(query, "mascot");
    if a.is_none() || b.is_none() || c.is_none() || d.is_none() {
        return None;
    }
    Some(overlay_info_from_query(query))
}

/// Milliseconds the overlay may live without a keep-alive from the hover.
pub const KEEPALIVE_WINDOW_MS: i64 = 25000;

/// The overlay's state shared by the hover, the failsafe and the tray: when
/// the hover last said the window is in use, and the flyby in the air.
#[derive(Debug)]
pub struct OverlayState {
    /// milliseconds on a monotonic clock
    pub keepalive_at: i64,
    pub active: Option<OverlayInfo>,
}

impl OverlayState {
    /// The state at startup, `now` on the monotonic clock: the last
    /// keep-alive lies an hour back, and no flyby is in the air.
    pub fn new(now: i64) -> (s: OverlayState)
        requires
            now >= i64::MIN + 3600000,
        ensures
            s.keepalive_at == now - 3600000,
            s.active is None,
    {
        OverlayState { keepalive_at: now - 3600000, active: None }
    }

    /// The hover reports the window in use at `now`.
    pub fn touch_keepalive(&mut self, now: i64)
        ensures
            final(self).keepalive_at == now,
            final(self).active == old(self).active,
    {
        self.keepalive_at = now;
    }

    /// Has the hover reported the window in use in the last 25 s?
    pub fn alive_recently(&self, now: i64) -> (b: bool)
        ensures
            b == (now - self.keepalive_at < KEEPALIVE_WINDOW_MS),
    {
        (now as i128) - (self.keepalive_at as i128) < (KEEPALIVE_WINDOW_MS as i128)
    }

    /// The flyby in the air, `None` when none is.
    pub fn active_overlay(&self) -> (r: Option<OverlayInfo>)
        ensures
            r == self.active,
    {
        match &self.active {
            Some(info) => Some(info.copy_of()),
            None => None,
        }
    }

    /// Records the flyby in the air (`None` once the overlay closes).
    pub fn set_active_overlay(&mut self, info: Option<OverlayInfo>)
        ensures
            final(self).active == info,
            final(self).keepalive_at == old(self).keepalive_at,
    {
        self.active = info;
    }
}

/// The language code handed to the overlay: English when chosen, else Czech.
pub fn overlay_language(language: &str) -> (r: &'static str)
    ensures
        r@ == if language@ == seq!['e', 'n'] { seq!['e', 'n'] } else { seq!['c', 's'] },
{
    proof {
        reveal_strlit("en");
        reveal_strlit("cs");
        assert("en"@ =~= seq!['e', 'n']);
        assert("cs"@ =~= seq!['c', 's']);
    }
    if same_text(language, "en") {
        "en"
    } else {
        "cs"
    }
}

pub open spec fn fun_text() -> Seq<char> {
    seq!['f', 'u', 'n']
}

pub open spec fn hybrid_text() -> Seq<char> {
    seq!['h', 'y', 'b', 'r', 'i', 'd']
}

pub open spec fn title_text() -> Seq<char> {
    seq!['t', 'i', 't', 'l', 'e']
}

/// The text mode handed to the overlay: "fun" and "hybrid" as chosen,
/// anything else "title".
pub fn overlay_text_mode(mode: &str) -> (r: &'static str)
    ensures
        r@ == if mode@ == fun_text() {
            fun_text()
        } else if mode@ == hybrid_text() {
            hybrid_text()
        } else {
            title_text()
        },
{
    proof {
        reveal_strlit("fun");
        reveal_strlit("hybrid");
        reveal_strlit("title");
        assert("fun"@ =~= fun_text());
        assert("hybrid"@ =~= hybrid_text());
        assert("title"@ =~= title_text());
    }
    if same_text(mode, "fun") {
        "fun"
    } else if same_text(mode, "hybrid") {
        "hybrid"
    } else {
        "title"
    }
}

} // verus!
