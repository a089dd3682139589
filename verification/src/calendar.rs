//! Calendar events as the rest of the library sees them, and the cleaning
//! every event title goes through before it reaches the screen.

use vstd::prelude::*;
use crate::text::{
    chars_of, concat_chars, find, find_chars, lemma_find_from_occurs, lemma_rfind_upto_occurs, is_white_space, join_words, joined_words,
    lemma_trim_end_prefix, lemma_trim_piece, occurs_at, rfind, rfind_chars, slice_chars, string_of, trim,
    trim_chars, trim_end, trim_start, white_space,
};

verus! {

/// One upcoming meeting, whatever calendar it came from.
#[derive(Debug, Clone)]
pub struct CalEvent {
    pub id: String,
    pub title: String,
    /// unix timestamp of the start
    pub start: i64,
    pub calendar_id: String,
    /// identity that survives moving the event between calendars
    pub stable_id: String,
    /// originally planned time of this occurrence
    pub occurrence: i64,
}

impl CalEvent {
    /// A field-by-field copy.
    pub fn copy_of(&self) -> (r: CalEvent)
        ensures
            r == *self,
    {
        CalEvent {
            id: self.id.clone(),
            title: self.title.clone(),
            start: self.start,
            calendar_id: self.calendar_id.clone(),
            stable_id: self.stable_id.clone(),
            occurrence: self.occurrence,
        }
    }
}

/// An event as plain values.
pub struct CalEventView {
    pub id: Seq<char>,
    pub title: Seq<char>,
    pub start: i64,
    pub calendar_id: Seq<char>,
    pub stable_id: Seq<char>,
    pub occurrence: i64,
}

impl View for CalEvent {
    type V = CalEventView;

    open spec fn view(&self) -> CalEventView {
        CalEventView {
            id: self.id@,
            title: self.title@,
            start: self.start,
            calendar_id: self.calendar_id@,
            stable_id: self.stable_id@,
            occurrence: self.occurrence,
        }
    }
}

/// A calendar the user can pick in the settings.
#[derive(Debug, Clone)]
pub struct CalInfo {
    pub id: String,
    pub title: String,
    /// "birthday" | "subscription" | "normal"
    pub kind: String,
}

/// Longest title kept, in characters.
pub const MAX_TITLE_CHARS: usize = 120;

/// Line breaks and tabs become plain spaces.
pub open spec fn blank_breaks(c: char) -> char {
    if c == '\r' || c == '\n' || c == '\t' {
        ' '
    } else {
        c
    }
}

/// C0/C1 control characters.
pub open spec fn is_control_char(c: char) -> bool {
    let u = c as u32;
    u < 0x20 || (0x7F <= u && u <= 0x9F)
}

/// Bidi overrides and isolates, which can make text read backwards.
pub open spec fn is_bidi_control(c: char) -> bool {
    let u = c as u32;
    (0x202A <= u && u <= 0x202E) || (0x2066 <= u && u <= 0x2069)
}

pub open spec fn is_dropped_from_title(c: char) -> bool {
    is_control_char(c) || is_bidi_control(c)
}

/// Breaks blanked, then control and bidi characters dropped.
pub open spec fn cleaned_chars(raw: Seq<char>) -> Seq<char>
    decreases raw.len(),
{
    if raw.len() == 0 {
        Seq::empty()
    } else {
        let c = blank_breaks(raw.last());
        if is_dropped_from_title(c) {
            cleaned_chars(raw.drop_last())
        } else {
            cleaned_chars(raw.drop_last()).push(c)
        }
    }
}

/// The first `n` characters of `s` (all of it when shorter).
pub open spec fn take_at_most(s: Seq<char>, n: nat) -> Seq<char> {
    if s.len() <= n {
        s
    } else {
        s.take(n as int)
    }
}

/// What `sanitize_title` makes of `raw`.
pub open spec fn sanitized_title(raw: Seq<char>) -> Seq<char> {
    take_at_most(trim(cleaned_chars(raw)), MAX_TITLE_CHARS as nat)
}

fn dropped_from_title(c: char) -> (b: bool)
    ensures
        b == is_dropped_from_title(c),
{
    let u = c as u32;
    u < 0x20 || (0x7F <= u && u <= 0x9F) || (0x202A <= u && u <= 0x202E) || (0x2066 <= u && u
        <= 0x2069)
}

/// Identity for now: text from the calendar already arrives composed.
pub fn nfc_shim(s: &str) -> (r: String)
    ensures
        r@ == s@,
{
    s.to_owned()
}

/// The one cleaning step for titles from every source: breaks become
/// spaces, control and bidi characters go, the ends are trimmed and the
/// text is cut to 120 characters.
pub fn sanitize_title(raw: &str) -> (r: String)
    ensures
        r@ == sanitized_title(raw@),
{
    let chars = chars_of(raw);
    let mut cleaned: Vec<char> = Vec::new();
    let mut i: usize = 0;
    while i < chars.len()
        invariant
            i <= chars.len(),
            chars@ == raw@,
            cleaned@ == cleaned_chars(chars@.take(i as int)),
        decreases chars.len() - i,
    {
        let c0 = chars[i];
        let c = if c0 == '\r' || c0 == '\n' || c0 == '\t' {
            ' '
        } else {
            c0
        };
        if !dropped_from_title(c) {
            cleaned.push(c);
        }
        assert(chars@.take(i + 1).drop_last() =~= chars@.take(i as int));
        i += 1;
    }
    assert(chars@.take(chars.len() as int) =~= chars@);
    let trimmed = string_of(&trim_chars(&cleaned));
    let normalized = nfc_shim(trimmed.as_str());
    let norm_chars = chars_of(normalized.as_str());
    let mut out: Vec<char> = Vec::new();
    let mut k: usize = 0;
    while k < norm_chars.len() && k < MAX_TITLE_CHARS
        invariant
            k <= norm_chars.len(),
            k <= MAX_TITLE_CHARS,
            out@ == norm_chars@.take(k as int),
        decreases norm_chars.len() - k,
    {
        out.push(norm_chars[k]);
        k += 1;
        assert(out@ =~= norm_chars@.take(k as int));
    }
    assert(norm_chars@.len() <= MAX_TITLE_CHARS ==> norm_chars@.take(k as int) =~= norm_chars@);
    string_of(&out)
}

/// Every title that leaves `sanitize_title` is free of control and bidi
/// characters, has no leading white space and is at most 120 characters long.
pub proof fn sanitized_title_is_clean(raw: Seq<char>)
    ensures
        sanitized_title(raw).len() <= MAX_TITLE_CHARS,
        forall|i: int|
            0 <= i < sanitized_title(raw).len() ==> !is_dropped_from_title(
                #[trigger] sanitized_title(raw)[i],
            ),
        sanitized_title(raw).len() > 0 ==> !is_white_space(sanitized_title(raw)[0]),
{
    lemma_cleaned_chars_clean(raw);
    let c = cleaned_chars(raw);
    lemma_trim_piece(c);
    let t = trim(c);
    lemma_trim_end_prefix(trim_start(c));
    lemma_trim_start_front(c);
    let out = sanitized_title(raw);
    assert forall|i: int| 0 <= i < out.len() implies !is_dropped_from_title(#[trigger] out[i]) by {
        let (a, b) = choose|a: int, b: int| 0 <= a <= b <= c.len() && t == c.subrange(a, b);
        assert(out[i] == t[i]);
        assert(t[i] == c[a + i]);
    }
    if out.len() > 0 {
        assert(out[0] == t[0]);
        assert(t[0] == trim_start(c)[0]);
    }
}

proof fn lemma_cleaned_len(raw: Seq<char>)
    ensures
        cleaned_chars(raw).len() <= raw.len(),
    decreases raw.len(),
{
    if raw.len() > 0 {
        lemma_cleaned_len(raw.drop_last());
    }
}

/// Cleaning leaves text without breaks, control or bidi characters as it is.
proof fn lemma_clean_fixed(s: Seq<char>)
    requires
        forall|i: int| 0 <= i < s.len() ==> !is_dropped_from_title(#[trigger] s[i]),
    ensures
        cleaned_chars(s) == s,
    decreases s.len(),
{
    if s.len() > 0 {
        assert forall|i: int| 0 <= i < s.drop_last().len() implies !is_dropped_from_title(
            #[trigger] s.drop_last()[i],
        ) by {
            assert(s.drop_last()[i] == s[i]);
        }
        lemma_clean_fixed(s.drop_last());
        assert(!is_dropped_from_title(s[s.len() - 1]));
        assert(blank_breaks(s.last()) == s.last());
        assert(s.drop_last().push(s.last()) =~= s);
    }
}

proof fn lemma_trim_end_back(s: Seq<char>)
    ensures
        trim_end(s).len() > 0 ==> !is_white_space(trim_end(s).last()),
    decreases s.len(),
{
    if s.len() > 0 && is_white_space(s.last()) {
        lemma_trim_end_back(s.drop_last());
    }
}

/// Trimmed text trims to itself.
proof fn lemma_trim_twice(x: Seq<char>)
    ensures
        trim(trim(x)) == trim(x),
{
    let y = trim_start(x);
    let t = trim_end(y);
    lemma_trim_start_front(x);
    lemma_trim_end_prefix(y);
    lemma_trim_end_back(y);
    if t.len() > 0 {
        assert(t[0] == y[0]);
        assert(trim_start(t) == t);
        assert(!is_white_space(t.last()));
        assert(trim_end(t) == t);
    } else {
        assert(trim_start(t) == t);
    }
}

/// Sanitizing a title of at most 120 characters a second time changes
/// nothing.
pub proof fn sanitizing_twice_changes_nothing(raw: Seq<char>)
    requires
        raw.len() <= MAX_TITLE_CHARS,
    ensures
        sanitized_title(sanitized_title(raw)) == sanitized_title(raw),
{
    let c = cleaned_chars(raw);
    lemma_cleaned_len(raw);
    lemma_trim_piece(c);
    let t = trim(c);
    assert(t.len() <= MAX_TITLE_CHARS);
    assert(sanitized_title(raw) == t);
    sanitized_title_is_clean(raw);
    lemma_clean_fixed(t);
    lemma_trim_twice(c);
}

proof fn lemma_cleaned_chars_clean(raw: Seq<char>)
    ensures
        forall|i: int|
            0 <= i < cleaned_chars(raw).len() ==> !is_dropped_from_title(
                #[trigger] cleaned_chars(raw)[i],
            ),
    decreases raw.len(),
{
    if raw.len() > 0 {
        lemma_cleaned_chars_clean(raw.drop_last());
        let pre = cleaned_chars(raw.drop_last());
        let out = cleaned_chars(raw);
        assert forall|i: int| 0 <= i < out.len() implies !is_dropped_from_title(#[trigger] out[i]) by {
            if i < pre.len() {
                assert(out[i] == pre[i]);
            }
        }
    }
}

proof fn lemma_trim_start_front(s: Seq<char>)
    ensures
        trim_start(s).len() > 0 ==> !is_white_space(trim_start(s)[0]),
    decreases s.len(),
{
    if s.len() > 0 && is_white_space(s[0]) {
        lemma_trim_start_front(s.drop_first());
    }
}


/// What `char::is_uppercase` answers (Unicode `Uppercase`).
pub uninterp spec fn char_is_uppercase(c: char) -> bool;

/// `char::is_uppercase`. The contract claims that the answer is a
/// function of the character (the Unicode `Uppercase` property), true for
/// the ASCII capitals and false for the ASCII small letters.
#[verifier::external_body]
fn is_uppercase(c: char) -> (b: bool)
    ensures
        b == char_is_uppercase(c),
        'A' <= c <= 'Z' ==> b,
        'a' <= c <= 'z' ==> !b,
{
    c.is_uppercase()
}

/// A character a name may start with: an upper-case letter or a digit.
pub open spec fn is_name_initial(c: char) -> bool {
    char_is_uppercase(c) || ('0' <= c && c <= '9')
}

/// A word of `s` starts at `i`.
pub open spec fn is_word_start(s: Seq<char>, i: int) -> bool {
    0 <= i < s.len() && !is_white_space(s[i]) && (i == 0 || is_white_space(s[i - 1]))
}

/// Number of words in `s`.
pub open spec fn word_count(s: Seq<char>) -> nat
    decreases s.len(),
{
    if s.len() == 0 {
        0
    } else {
        word_count(s.drop_last()) + if is_word_start(s, s.len() - 1) {
            1nat
        } else {
            0nat
        }
    }
}

/// One to four words, each starting with a capital or a digit, at most
/// 40 characters in all.
pub open spec fn looks_like_name_spec(s: Seq<char>) -> bool {
    &&& 0 < word_count(s) <= 4
    &&& s.len() <= 40
    &&& forall|i: int| is_word_start(s, i) ==> is_name_initial(#[trigger] s[i])
}

/// Does the text look like the name of a person or a company?
pub fn looks_like_name(s: &Vec<char>) -> (b: bool)
    ensures
        b == looks_like_name_spec(s@),
{
    let mut count: usize = 0;
    let mut all_initials = true;
    let mut i: usize = 0;
    while i < s.len()
        invariant
            i <= s.len(),
            count == word_count(s@.take(i as int)),
            count <= i,
            all_initials == (forall|j: int|
                0 <= j < i && is_word_start(s@, j) ==> is_name_initial(#[trigger] s@[j])),
        decreases s.len() - i,
    {
        let c = s[i];
        let start = !white_space(c) && (i == 0 || white_space(s[i - 1]));
        let ghost t = s@.take(i + 1);
        assert(t.drop_last() =~= s@.take(i as int));
        assert(is_word_start(t, i as int) == is_word_start(s@, i as int));
        if start {
            count += 1;
            if !(is_uppercase(c) || ('0' <= c && c <= '9')) {
                all_initials = false;
            }
        }
        i += 1;
    }
    assert(s@.take(s.len() as int) =~= s@);
    count > 0 && count <= 4 && s.len() <= 40 && all_initials
}

pub open spec fn is_subject_separator(c: char) -> bool {
    c == '|' || c == '\u{2013}' || c == '\u{2014}'
}

/// Position of the first subject separator at or after `k` (the length when none).
pub open spec fn separator_from(s: Seq<char>, k: int) -> int
    decreases s.len() - k,
{
    if k >= s.len() {
        s.len() as int
    } else if is_subject_separator(s[k]) {
        k
    } else {
        separator_from(s, k + 1)
    }
}

/// The part of `s` before its first `|`, en dash or em dash.
pub open spec fn before_separator(s: Seq<char>) -> Seq<char> {
    s.take(separator_from(s, 0))
}

/// `s` without its trailing `-` characters.
pub open spec fn trim_end_dashes(s: Seq<char>) -> Seq<char>
    decreases s.len(),
{
    if s.len() > 0 && s.last() == '-' {
        trim_end_dashes(s.drop_last())
    } else {
        s
    }
}

pub open spec fn between_cs() -> Seq<char> {
    seq![' ', 'm', 'e', 'z', 'i', ' ']
}

pub open spec fn and_cs() -> Seq<char> {
    seq![' ', 'a', ' ']
}

pub open spec fn between_en() -> Seq<char> {
    seq![' ', 'b', 'e', 't', 'w', 'e', 'e', 'n', ' ']
}

pub open spec fn and_en() -> Seq<char> {
    seq![' ', 'a', 'n', 'd', ' ']
}

/// The joint between subject and person: a middle dot between spaces.
pub open spec fn subject_joint() -> Seq<char> {
    seq![' ', '\u{B7}', ' ']
}

/// The short form for one pattern `"{head} {between} {party} {and} {other}"`,
/// when the pattern is there, both parties look like names and the short form
/// is really shorter.
pub open spec fn tidy_with(t: Seq<char>, between: Seq<char>, and: Seq<char>) -> Option<Seq<char>> {
    match find(t, between) {
        None => None,
        Some(b) => {
            let head = trim(t.take(b));
            let tail = t.skip(b + between.len());
            match rfind(tail, and) {
                None => None,
                Some(a) => {
                    let first_party = trim(tail.take(a));
                    let other = trim(tail.skip(a + and.len()));
                    if !looks_like_name_spec(first_party) || !looks_like_name_spec(other) {
                        None
                    } else {
                        let subject = trim(trim_end_dashes(trim(before_separator(head))));
                        let out = if subject.len() == 0 {
                            other
                        } else {
                            subject + subject_joint() + other
                        };
                        if out.len() < t.len() {
                            Some(out)
                        } else {
                            None
                        }
                    }
                }
            }
        }
    }
}

/// What `tidy_title` makes of `raw`: the short form by the Czech pattern,
/// else by the English one, both read on the text with its white space
/// collapsed; else `raw` itself.
pub open spec fn tidied_title(raw: Seq<char>) -> Seq<char> {
    let t = joined_words(raw);
    match tidy_with(t, between_cs(), and_cs()) {
        Some(out) => out,
        None => match tidy_with(t, between_en(), and_en()) {
            Some(out) => out,
            None => raw,
        },
    }
}

fn before_separator_chars(s: &Vec<char>) -> (r: Vec<char>)
    ensures
        r@ == before_separator(s@),
{
    let mut k: usize = 0;
    while k < s.len() && !(s[k] == '|' || s[k] == '\u{2013}' || s[k] == '\u{2014}')
        invariant
            k <= s.len(),
            separator_from(s@, 0) == separator_from(s@, k as int),
        decreases s.len() - k,
    {
        k += 1;
    }
    slice_chars(s, 0, k)
}

fn trim_end_dashes_chars(s: &Vec<char>) -> (r: Vec<char>)
    ensures
        r@ == trim_end_dashes(s@),
{
    let mut j: usize = s.len();
    assert(s@.take(j as int) =~= s@);
    while j > 0 && s[j - 1] == '-'
        invariant
            j <= s.len(),
            trim_end_dashes(s@) == trim_end_dashes(s@.take(j as int)),
        decreases j,
    {
        assert(s@.take(j as int).drop_last() =~= s@.take(j - 1));
        j -= 1;
    }
    slice_chars(s, 0, j)
}

fn tidy_with_exec(t: &Vec<char>, between: &Vec<char>, and: &Vec<char>) -> (r: Option<Vec<char>>)
    ensures
        match r {
            Some(out) => tidy_with(t@, between@, and@) == Some(out@),
            None => tidy_with(t@, between@, and@) is None,
        },
{
    proof {
        lemma_find_from_occurs(t@, between@, 0);
    }
    let b = match find_chars(t, between) {
        Some(b) => b,
        None => return None,
    };
    assert(occurs_at(t@, between@, b as int));
    let head = trim_chars(&slice_chars(t, 0, b));
    let tl = t.len();
    let bl = between.len();
    assert(b + bl <= tl);
    let tail = slice_chars(t, b + bl, tl);
    assert(tail@ =~= t@.skip(b + between@.len()));
    assert(t@.subrange(0, b as int) =~= t@.take(b as int));
    proof {
        lemma_rfind_upto_occurs(tail@, and@, tail@.len() - and@.len());
    }
    let a = match rfind_chars(&tail, and) {
        Some(a) => a,
        None => return None,
    };
    assert(occurs_at(tail@, and@, a as int));
    let first_party = trim_chars(&slice_chars(&tail, 0, a));
    let al = and.len();
    let tail_len = tail.len();
    assert(a + al <= tail_len);
    let other = trim_chars(&slice_chars(&tail, a + al, tail_len));
    assert(tail@.subrange(0, a as int) =~= tail@.take(a as int));
    assert(tail@.subrange(a + and@.len(), tail@.len() as int) =~= tail@.skip(a + and@.len()));
    if !looks_like_name(&first_party) || !looks_like_name(&other) {
        return None;
    }
    let subject = trim_chars(&trim_end_dashes_chars(&trim_chars(&before_separator_chars(&head))));
    let out = if subject.len() == 0 {
        other
    } else {
        let joint: Vec<char> = vec![' ', '\u{B7}', ' '];
        assert(joint@ =~= subject_joint());
        concat_chars(&concat_chars(&subject, &joint), &other)
    };
    if out.len() < t.len() {
        Some(out)
    } else {
        None
    }
}

/// Shortens the wordy titles booking systems write ("Intro | Company
/// between Company and Jane Doe" becomes "Intro · Jane Doe"). When the
/// pattern does not fit, the text comes back unchanged: it never guesses.
pub fn tidy_title(raw: &str) -> (r: String)
    ensures
        r@ == tidied_title(raw@),
{
    let raw_chars = chars_of(raw);
    let t = join_words(&raw_chars);
    let between_cs_v: Vec<char> = vec![' ', 'm', 'e', 'z', 'i', ' '];
    let and_cs_v: Vec<char> = vec![' ', 'a', ' '];
    assert(between_cs_v@ =~= between_cs());
    assert(and_cs_v@ =~= and_cs());
    if let Some(out) = tidy_with_exec(&t, &between_cs_v, &and_cs_v) {
        return string_of(&out);
    }
    let between_en_v: Vec<char> = vec![' ', 'b', 'e', 't', 'w', 'e', 'e', 'n', ' '];
    let and_en_v: Vec<char> = vec![' ', 'a', 'n', 'd', ' '];
    assert(between_en_v@ =~= between_en());
    assert(and_en_v@ =~= and_en());
    if let Some(out) = tidy_with_exec(&t, &between_en_v, &and_en_v) {
        return string_of(&out);
    }
    string_of(&raw_chars)
}

/// The two parties of the pattern `between`/`and` in `t`: the text from
/// the first `between` to the last `and` after it, and the text after that
/// `and`, both trimmed.
pub open spec fn pattern_parties(t: Seq<char>, between: Seq<char>, and: Seq<char>) -> Option<(Seq<char>, Seq<char>)> {
    match find(t, between) {
        None => None,
        Some(b) => {
            let tail = t.skip(b + between.len());
            match rfind(tail, and) {
                None => None,
                Some(a) => Some((trim(tail.take(a)), trim(tail.skip(a + and.len())))),
            }
        },
    }
}

/// Text that reads as the name of a person or company: one to four words,
/// each starting with a capital or a digit, at most 40 characters.
pub open spec fn reads_as_name(s: Seq<char>) -> bool {
    &&& 0 < word_count(s) <= 4
    &&& s.len() <= 40
    &&& forall|i: int| is_word_start(s, i) ==> is_name_initial(#[trigger] s[i])
}

/// Tidying rewrites only a booking-system title: a title it changes holds
/// the Czech or the English pattern, and both parties of it read as names;
/// an ordinary sentence ("between the team and John Smith") stays as it is.
pub proof fn tidying_needs_two_names(raw: Seq<char>)
    ensures
        tidied_title(raw) != raw ==> {
            let t = joined_words(raw);
            ||| pattern_parties(t, between_cs(), and_cs()) matches Some((p, o)) && reads_as_name(p) && reads_as_name(o)
            ||| pattern_parties(t, between_en(), and_en()) matches Some((p, o)) && reads_as_name(p) && reads_as_name(o)
        },
{
}

/// Tidying never guesses: a title it changes gets strictly shorter than
/// even its white-space-collapsed form, and a title without either pattern
/// word comes back exactly as it was.
pub proof fn tidied_title_never_longer(raw: Seq<char>)
    ensures
        tidied_title(raw) != raw ==> tidied_title(raw).len() < joined_words(raw).len(),
        find(joined_words(raw), between_cs()) is None && find(joined_words(raw), between_en()) is None
            ==> tidied_title(raw) == raw,
{
}

} // verus!

verus! {

/// Number of events in `s` starting no later than `t`.
pub open spec fn count_starting_by(s: Seq<CalEvent>, t: i64) -> int
    decreases s.len(),
{
    if s.len() == 0 {
        0
    } else {
        count_starting_by(s.drop_last(), t) + if s.last().start <= t {
            1int
        } else {
            0int
        }
    }
}

/// `s` with `e` placed after every event starting no later than it.
pub open spec fn insert_by_start(s: Seq<CalEvent>, e: CalEvent) -> Seq<CalEvent> {
    let p = count_starting_by(s, e.start);
    s.take(p).push(e) + s.skip(p)
}

/// `s` in order of start; events starting together keep their order (the
/// stable sort `sort_by_key(|e| e.start)` gives).
pub open spec fn sorted_by_start(s: Seq<CalEvent>) -> Seq<CalEvent>
    decreases s.len(),
{
    if s.len() == 0 {
        s
    } else {
        insert_by_start(sorted_by_start(s.drop_last()), s.last())
    }
}

pub open spec fn ordered_by_start(s: Seq<CalEvent>) -> bool {
    forall|i: int, j: int| 0 <= i < j < s.len() ==> s[i].start <= s[j].start
}

proof fn lemma_count_starting_by(s: Seq<CalEvent>, t: i64, p: int)
    requires
        0 <= p <= s.len(),
        forall|k: int| 0 <= k < p ==> s[k].start <= t,
        forall|k: int| p <= k < s.len() ==> s[k].start > t,
    ensures
        count_starting_by(s, t) == p,
    decreases s.len(),
{
    if s.len() > 0 {
        if p == s.len() {
            lemma_count_starting_by(s.drop_last(), t, p - 1);
        } else {
            lemma_count_starting_by(s.drop_last(), t, p);
        }
    }
}

proof fn lemma_count_split(t: Seq<CalEvent>, x: i64)
    requires
        ordered_by_start(t),
    ensures
        0 <= count_starting_by(t, x) <= t.len(),
        forall|k: int| 0 <= k < count_starting_by(t, x) ==> t[k].start <= x,
        forall|k: int| count_starting_by(t, x) <= k < t.len() ==> t[k].start > x,
    decreases t.len(),
{
    if t.len() > 0 {
        let d = t.drop_last();
        assert(ordered_by_start(d)) by {
            assert forall|i: int, j: int| 0 <= i < j < d.len() implies d[i].start <= d[j].start by {
                assert(d[i] == t[i] && d[j] == t[j]);
            }
        }
        lemma_count_split(d, x);
        if t.last().start <= x {
            assert forall|k: int| 0 <= k < t.len() implies t[k].start <= x by {
                if k < t.len() - 1 {
                    assert(t[k].start <= t[t.len() - 1].start);
                }
            }
            assert forall|k: int| 0 <= k < d.len() implies d[k].start <= x by {
                assert(d[k] == t[k]);
            }
            if count_starting_by(d, x) < d.len() {
                let k = count_starting_by(d, x);
                assert(d[k].start > x);
            }
        } else {
            assert forall|k: int| 0 <= k < count_starting_by(d, x) implies t[k].start <= x by {
                assert(d[k] == t[k]);
            }
            assert forall|k: int| count_starting_by(d, x) <= k < t.len() implies t[k].start > x by {
                if k < t.len() - 1 {
                    assert(d[k] == t[k]);
                }
            }
        }
    }
}

proof fn lemma_insert_by_start(s: Seq<CalEvent>, e: CalEvent, p: int)
    requires
        ordered_by_start(s),
        0 <= p <= s.len(),
        forall|k: int| 0 <= k < p ==> s[k].start <= e.start,
        forall|k: int| p <= k < s.len() ==> s[k].start > e.start,
    ensures
        insert_by_start(s, e) == s.take(p).push(e) + s.skip(p),
        ordered_by_start(insert_by_start(s, e)),
        insert_by_start(s, e).len() == s.len() + 1,
{
    lemma_count_starting_by(s, e.start, p);
    let r = s.take(p).push(e) + s.skip(p);
    assert forall|i: int, j: int| 0 <= i < j < r.len() implies r[i].start <= r[j].start by {
        if j < p {
            assert(r[i] == s[i] && r[j] == s[j]);
        } else if j == p {
            assert(r[j] == e);
            assert(r[i] == s[i]);
        } else if i < p {
            assert(r[i] == s[i] && r[j] == s[j - 1]);
        } else if i == p {
            assert(r[i] == e && r[j] == s[j - 1]);
        } else {
            assert(r[i] == s[i - 1] && r[j] == s[j - 1]);
        }
    }
}

/// Inserts `e` after every event of the ordered `v` that starts no later.
fn insert_event(v: &mut Vec<CalEvent>, e: CalEvent)
    requires
        ordered_by_start(old(v)@),
    ensures
        final(v)@ == insert_by_start(old(v)@, e),
        ordered_by_start(final(v)@),
{
    let ghost s = v@;
    let mut p = v.len();
    while p > 0 && v[p - 1].start > e.start
        invariant
            p <= v.len(),
            v@ == s,
            ordered_by_start(s),
            forall|k: int| p <= k < s.len() ==> s[k].start > e.start,
        decreases p,
    {
        p -= 1;
    }
    assert forall|k: int| 0 <= k < p implies s[k].start <= e.start by {
        assert(s[k].start <= s[p - 1].start);
    }
    proof {
        lemma_insert_by_start(s, e, p as int);
    }
    v.insert(p, e);
    assert(v@ =~= s.take(p as int).push(e) + s.skip(p as int));
}

/// Sorts the events by start, keeping the order of events that start
/// together.
pub fn sort_by_start(events: Vec<CalEvent>) -> (r: Vec<CalEvent>)
    ensures
        r@ == sorted_by_start(events@),
        ordered_by_start(r@),
{
    let mut out: Vec<CalEvent> = Vec::new();
    let mut i: usize = 0;
    assert(events@.take(0) =~= Seq::<CalEvent>::empty());
    while i < events.len()
        invariant
            i <= events.len(),
            out@ == sorted_by_start(events@.take(i as int)),
            ordered_by_start(out@),
        decreases events.len() - i,
    {
        proof {
            assert(events@.take(i + 1).drop_last() =~= events@.take(i as int));
            assert(events@.take(i + 1).last() == events@[i as int]);
        }
        insert_event(&mut out, events[i].copy_of());
        i += 1;
    }
    assert(events@.take(events.len() as int) =~= events@);
    out
}

/// A sort by start is ordered and holds the same events, as many times each.
pub proof fn sorting_keeps_every_event(s: Seq<CalEvent>)
    ensures
        ordered_by_start(sorted_by_start(s)),
        sorted_by_start(s).to_multiset() == s.to_multiset(),
        sorted_by_start(s).len() == s.len(),
    decreases s.len(),
{
    broadcast use vstd::seq_lib::group_to_multiset_ensures;
    if s.len() > 0 {
        sorting_keeps_every_event(s.drop_last());
        let t = sorted_by_start(s.drop_last());
        let e = s.last();
        let q = count_starting_by(t, e.start);
        lemma_count_split(t, e.start);
        lemma_insert_by_start(t, e, q);
        assert(t.take(q) + t.skip(q) =~= t);
        vstd::seq_lib::lemma_multiset_commutative(t.take(q).push(e), t.skip(q));
        vstd::seq_lib::lemma_multiset_commutative(t.take(q), t.skip(q));
        assert(s.drop_last().push(e) =~= s);
    }
}

} // verus!
