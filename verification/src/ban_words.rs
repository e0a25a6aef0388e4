//! The banned-word rule: which messages the bot deletes, and the guild's list of banned words.
use vstd::prelude::*;
use crate::text::{bullet_list, push_bullets, contains_str, find_str, has_char, byte_len, chars_of, push_char, str_byte_len, char_byte_width, lemma_byte_len_step, lemma_byte_len_grows, lemma_byte_len_prefix};

verus! {

broadcast use vstd::string::group_string_axioms;

/// What `str::to_lowercase` makes of a text (Unicode lowercase mapping).
pub uninterp spec fn unicode_lowercase(s: Seq<char>) -> Seq<char>;

/// What `char::is_alphanumeric` answers (Unicode Alphabetic or Numeric).
pub uninterp spec fn unicode_alphanumeric(c: char) -> bool;

/// What `char::is_whitespace` answers (Unicode White_Space).
pub uninterp spec fn unicode_whitespace(c: char) -> bool;

/// Whether `c` is an ASCII character.
pub open spec fn ascii_char(c: char) -> bool {
    (c as u32) < 128
}

/// Whether every character of `s` is ASCII.
pub open spec fn ascii_text(s: Seq<char>) -> bool {
    forall|i: int| 0 <= i < s.len() ==> ascii_char(#[trigger] s[i])
}

/// `c` with an ASCII capital letter turned into the small one.
pub open spec fn ascii_lower_char(c: char) -> char {
    if 65 <= (c as u32) <= 90 {
        ((c as u32) + 32) as char
    } else {
        c
    }
}

/// `c` with an ASCII small letter turned into the capital one.
pub open spec fn ascii_upper_char(c: char) -> char {
    if 97 <= (c as u32) <= 122 {
        ((c as u32) - 32) as char
    } else {
        c
    }
}

/// `s` with its ASCII capital letters made small (what `str::to_ascii_lowercase` gives).
pub open spec fn ascii_lower(s: Seq<char>) -> Seq<char> {
    s.map_values(|c: char| ascii_lower_char(c))
}

/// `s` with its ASCII small letters made capital (what `str::to_ascii_uppercase` gives).
pub open spec fn ascii_upper(s: Seq<char>) -> Seq<char> {
    s.map_values(|c: char| ascii_upper_char(c))
}

/// The lowercase form of a text: on ASCII text each capital letter becomes the small one;
/// elsewhere the Unicode mapping.
pub open spec fn lowercase(s: Seq<char>) -> Seq<char> {
    if ascii_text(s) {
        ascii_lower(s)
    } else {
        unicode_lowercase(s)
    }
}

/// Whether `c` is alphanumeric: on ASCII the letters and the digits; elsewhere the Unicode
/// properties.
pub open spec fn alphanumeric(c: char) -> bool {
    if ascii_char(c) {
        (48 <= (c as u32) <= 57) || (65 <= (c as u32) <= 90) || (97 <= (c as u32) <= 122)
    } else {
        unicode_alphanumeric(c)
    }
}

/// Whether `c` is whitespace: on ASCII the tab, line feed, vertical tab, form feed, carriage
/// return and space; elsewhere the Unicode property.
pub open spec fn whitespace(c: char) -> bool {
    if ascii_char(c) {
        (9 <= (c as u32) <= 13) || (c as u32) == 32
    } else {
        unicode_whitespace(c)
    }
}

/// The smallest of three numbers.
pub open spec fn min3(a: nat, b: nat, c: nat) -> nat {
    if a <= b && a <= c {
        a
    } else if b <= c {
        b
    } else {
        c
    }
}

/// The edit distance of `a` and `b`: the fewest insertions, deletions and substitutions of
/// characters that turn one into the other.
pub open spec fn edit_distance(a: Seq<char>, b: Seq<char>) -> nat
    decreases a.len() + b.len(),
{
    if a.len() == 0 {
        b.len()
    } else if b.len() == 0 {
        a.len()
    } else {
        min3(
            edit_distance(a.drop_last(), b) + 1,
            edit_distance(a, b.drop_last()) + 1,
            edit_distance(a.drop_last(), b.drop_last()) + if a.last() == b.last() {
                0nat
            } else {
                1nat
            },
        )
    }
}

/// A text is at distance 0 from itself.
pub proof fn lemma_edit_distance_self(a: Seq<char>)
    ensures
        edit_distance(a, a) == 0,
    decreases a.len(),
{
    if a.len() > 0 {
        lemma_edit_distance_self(a.drop_last());
    }
}

/// The lowercase form of `s`.
///
/// Trusted: `str::to_lowercase` returns the Unicode lowercase mapping of `s`, a function of `s`
/// alone; on ASCII text that mapping turns each capital letter A-Z into the small one and keeps
/// every other character.
#[verifier::external_body]
pub(crate) fn to_lowercase(s: &str) -> (r: String)
    ensures
        r@ == unicode_lowercase(s@),
        r@ == lowercase(s@),
{
    s.to_lowercase()
}

/// Trusted: `char::is_alphanumeric` answers a fixed Unicode property of `c` (Alphabetic or
/// Numeric); among ASCII characters these are exactly the letters and the digits.
#[verifier::external_body]
fn is_alphanumeric(c: char) -> (b: bool)
    ensures
        b == unicode_alphanumeric(c),
        b == alphanumeric(c),
{
    c.is_alphanumeric()
}

/// Trusted: `char::is_whitespace` answers the Unicode White_Space property of `c`; among ASCII
/// characters these are exactly U+0009 to U+000D and the space.
#[verifier::external_body]
fn is_whitespace(c: char) -> (b: bool)
    ensures
        b == unicode_whitespace(c),
        b == whitespace(c),
{
    c.is_whitespace()
}

/// Trusted: `strsim::levenshtein` returns the edit distance of `a` and `b` over their
/// characters (the fewest insertions, deletions and substitutions that turn one into the
/// other).
#[verifier::external_body]
fn levenshtein(a: &str, b: &str) -> (d: usize)
    ensures
        d as nat == edit_distance(a@, b@),
{
    strsim::levenshtein(a, b)
}

/// `char::is_digit(10)`: the ASCII digits `0` to `9`.
pub open spec fn decimal_digit(c: char) -> bool {
    48 <= (c as u32) <= 57
}

/// A character that does not count as part of a word: a digit, or a character that is neither
/// alphanumeric nor whitespace.
pub open spec fn flagged(c: char) -> bool {
    decimal_digit(c) || (!alphanumeric(c) && !whitespace(c))
}

/// The characters of `s` that are not flagged, in order.
pub open spec fn kept(s: Seq<char>) -> Seq<char>
    decreases s.len(),
{
    if s.len() == 0 {
        seq![]
    } else if flagged(s.last()) {
        kept(s.drop_last())
    } else {
        kept(s.drop_last()).push(s.last())
    }
}

/// The flagged characters of `s`, in order.
pub open spec fn removed(s: Seq<char>) -> Seq<char>
    decreases s.len(),
{
    if s.len() == 0 {
        seq![]
    } else if flagged(s.last()) {
        removed(s.drop_last()).push(s.last())
    } else {
        removed(s.drop_last())
    }
}

/// How many positions of `s` hold a character that occurs in `pool`.
pub open spec fn count_in(s: Seq<char>, pool: Seq<char>) -> nat
    decreases s.len(),
{
    if s.len() == 0 {
        0
    } else if pool.contains(s.last()) {
        count_in(s.drop_last(), pool) + 1
    } else {
        count_in(s.drop_last(), pool)
    }
}

/// The first position of `s` whose character occurs in `pool`; `s.len()` where there is none.
pub open spec fn first_shared(s: Seq<char>, pool: Seq<char>) -> nat
    decreases s.len(),
{
    if s.len() == 0 {
        0
    } else {
        let r = first_shared(s.drop_last(), pool);
        if r < s.len() - 1 {
            r
        } else if pool.contains(s.last()) {
            (s.len() - 1) as nat
        } else {
            s.len()
        }
    }
}

/// `s` without its whitespace characters.
pub open spec fn strip_spaces(s: Seq<char>) -> Seq<char>
    decreases s.len(),
{
    if s.len() == 0 {
        seq![]
    } else if whitespace(s.last()) {
        strip_spaces(s.drop_last())
    } else {
        strip_spaces(s.drop_last()).push(s.last())
    }
}

/// Whether the byte offset `b` falls between two characters of `s` (or at an end).
pub open spec fn is_boundary(s: Seq<char>, b: int) -> bool {
    exists|j: int| 0 <= j <= s.len() && byte_len(s.take(j)) == b
}

/// The number of characters before the byte offset `b` of `s`.
pub open spec fn boundary_index(s: Seq<char>, b: int) -> int {
    choose|j: int| 0 <= j <= s.len() && byte_len(s.take(j)) == b
}

/// The byte offset at which `c` first occurs in `text` (what `str::find` answers).
pub open spec fn find_offset(text: Seq<char>, c: char) -> nat {
    byte_len(text.take(first_shared(text, seq![c]) as int))
}

/// Slicing `text` from the first `c` over `width` bytes does not cut a character: where the
/// slice would end inside `text`, it ends between two characters.
pub open spec fn slice_ok(text: Seq<char>, c: char, width: nat) -> bool {
    let k = first_shared(text, seq![c]);
    k < text.len() && find_offset(text, c) + width <= byte_len(text) ==> is_boundary(
        text,
        (find_offset(text, c) + width) as int,
    )
}

/// The piece of `text` that the distance check measures: from the first `c`, spanning `width`
/// bytes, without whitespace; `None` where `c` does not occur or the piece would run past the
/// end of `text`.
pub open spec fn check_piece(text: Seq<char>, c: char, width: nat) -> Option<Seq<char>> {
    let k = first_shared(text, seq![c]);
    if k >= text.len() {
        None
    } else if find_offset(text, c) + width <= byte_len(text) {
        let j = boundary_index(text, (find_offset(text, c) + width) as int);
        Some(strip_spaces(text.subrange(k as int, j)))
    } else {
        None
    }
}

/// The distance check of the banned-word rule: the edit distance between the checked piece
/// (see `check_piece`) and `ban_word`; 999 where there is no piece.
pub open spec fn levenshtein_check(text: Seq<char>, c: char, width: nat, ban_word: Seq<char>) -> nat {
    match check_piece(text, c, width) {
        Some(piece) => edit_distance(piece, ban_word),
        None => 999,
    }
}

proof fn lemma_first_shared_step(s: Seq<char>, pool: Seq<char>, i: int)
    requires
        0 <= i < s.len(),
        first_shared(s.take(i), pool) == i,
    ensures
        first_shared(s.take(i + 1), pool) == if pool.contains(s[i]) { i } else { i + 1 },
{
    assert(s.take(i + 1).drop_last() =~= s.take(i));
}

/// Once a shared character is found in a prefix, longer sequences keep it.
proof fn lemma_first_shared_stable(s: Seq<char>, pool: Seq<char>, m: int)
    requires
        0 <= m <= s.len(),
        first_shared(s.take(m), pool) < m,
    ensures
        first_shared(s, pool) == first_shared(s.take(m), pool),
    decreases s.len() - m,
{
    if s.len() == m {
        assert(s.take(m) =~= s);
    } else {
        let t = s.drop_last();
        assert(t.take(m) =~= s.take(m));
        lemma_first_shared_stable(t, pool, m);
    }
}


/// Splits `msg` into its unflagged characters and its flagged ones (digits and symbols), each
/// in their order in `msg`.
pub fn replace_caracters(msg: String) -> (r: (String, String))
    ensures
        r.0@ == kept(msg@),
        r.1@ == removed(msg@),
{
    let letters = chars_of(msg.as_str());
    let mut msg_valida = String::new();
    let mut msg_invalida = String::new();
    let mut i: usize = 0;
    while i < letters.len()
        invariant
            i <= letters.len(),
            letters@ == msg@,
            msg_valida@ == kept(msg@.take(i as int)),
            msg_invalida@ == removed(msg@.take(i as int)),
        decreases letters.len() - i,
    {
        let letra = letters[i];
        proof {
            assert(msg@.take(i + 1).drop_last() =~= msg@.take(i as int));
        }
        let digit = letra as u32 >= 48 && letra as u32 <= 57;
        if digit || (!is_alphanumeric(letra) && !is_whitespace(letra)) {
            push_char(&mut msg_invalida, letra);
        } else {
            push_char(&mut msg_valida, letra);
        }
        i = i + 1;
    }
    assert(msg@.take(letters.len() as int) =~= msg@);
    (msg_valida, msg_invalida)
}

/// How many positions of `s` hold a character of `pool`.
fn count_shared(s: &Vec<char>, pool: &Vec<char>) -> (n: usize)
    ensures
        n as nat == count_in(s@, pool@),
{
    let mut n: usize = 0;
    let mut i: usize = 0;
    while i < s.len()
        invariant
            i <= s.len(),
            n as nat == count_in(s@.take(i as int), pool@),
            n <= i,
        decreases s.len() - i,
    {
        proof {
            assert(s@.take(i + 1).drop_last() =~= s@.take(i as int));
        }
        if has_char(pool, s[i]) {
            n = n + 1;
        }
        i = i + 1;
    }
    assert(s@.take(s.len() as int) =~= s@);
    n
}

/// The first position of `s` whose character occurs in `pool`, or `s.len()`.
fn first_shared_index(s: &Vec<char>, pool: &Vec<char>) -> (k: usize)
    ensures
        k as nat == first_shared(s@, pool@),
        k <= s.len(),
{
    let mut i: usize = 0;
    while i < s.len()
        invariant
            i <= s.len(),
            first_shared(s@.take(i as int), pool@) == i,
        decreases s.len() - i,
    {
        proof {
            lemma_first_shared_step(s@, pool@, i as int);
        }
        if has_char(pool, s[i]) {
            proof {
                lemma_first_shared_stable(s@, pool@, i + 1);
            }
            return i;
        }
        i = i + 1;
    }
    assert(s@.take(s.len() as int) =~= s@);
    s.len()
}

/// The characters of `s` from position `from` up to `to`, without whitespace, as a string.
fn spaceless_piece(s: &Vec<char>, from: usize, to: usize) -> (r: String)
    requires
        from <= to <= s.len(),
    ensures
        r@ == strip_spaces(s@.subrange(from as int, to as int)),
{
    let mut r = String::new();
    let mut i: usize = from;
    while i < to
        invariant
            from <= i <= to <= s.len(),
            r@ == strip_spaces(s@.subrange(from as int, i as int)),
        decreases to - i,
    {
        proof {
            assert(s@.subrange(from as int, i + 1).drop_last() =~= s@.subrange(from as int, i as int));
        }
        if !is_whitespace(s[i]) {
            push_char(&mut r, s[i]);
        }
        i = i + 1;
    }
    r
}

/// Scans `s` from position `from` for the character boundary at byte offset `end`.
fn boundary_from(s: &Vec<char>, from: usize, end: usize) -> (r: Option<usize>)
    requires
        from <= s.len(),
        byte_len(s@.take(from as int)) <= end <= byte_len(s@),
        byte_len(s@) <= isize::MAX,
    ensures
        r matches Some(j) ==> from <= j <= s.len() && byte_len(s@.take(j as int)) == end
            && boundary_index(s@, end as int) == j,
        r is None <==> !is_boundary(s@, end as int),
{
    let mut j: usize = from;
    let mut off: usize = char_width_total(s, from);
    while off < end
        invariant
            from <= j <= s.len(),
            off as nat == byte_len(s@.take(j as int)),
            end <= byte_len(s@) <= isize::MAX,
            j > from ==> byte_len(s@.take(j - 1)) < end,
            byte_len(s@.take(from as int)) <= end,
        decreases s.len() - j,
    {
        proof {
            if j == s.len() {
                assert(s@.take(j as int) =~= s@);
            }
            lemma_byte_len_step(s@, j as int);
            lemma_byte_len_prefix(s@, j + 1);
        }
        off = off + char_byte_width(s[j]);
        j = j + 1;
    }
    if off == end {
        proof {
            assert(is_boundary(s@, end as int));
            let b = boundary_index(s@, end as int);
            if b < j {
                lemma_byte_len_grows(s@, b, j as int);
            } else if b > j {
                lemma_byte_len_grows(s@, j as int, b);
            }
        }
        Some(j)
    } else {
        proof {
            assert forall|k: int| 0 <= k <= s.len() implies byte_len(s@.take(k)) != end by {
                if k < j {
                    lemma_byte_len_grows(s@, k, j - 1);
                } else if k > j {
                    lemma_byte_len_grows(s@, j as int, k);
                }
            }
        }
        None
    }
}

/// The number of bytes of the first `n` characters of `s`.
fn char_width_total(s: &Vec<char>, n: usize) -> (off: usize)
    requires
        n <= s.len(),
        byte_len(s@) <= isize::MAX,
    ensures
        off as nat == byte_len(s@.take(n as int)),
{
    let mut off: usize = 0;
    let mut i: usize = 0;
    while i < n
        invariant
            i <= n <= s.len(),
            off as nat == byte_len(s@.take(i as int)),
            byte_len(s@) <= isize::MAX,
        decreases n - i,
    {
        proof {
            lemma_byte_len_step(s@, i as int);
            lemma_byte_len_prefix(s@, i + 1);
        }
        off = off + char_byte_width(s[i]);
        i = i + 1;
    }
    off
}

/// The distance check of the banned-word rule (see `levenshtein_check`).
pub fn validacao_usando_levenshtein(p0: String, p1: char, p2: usize, ban_word: String) -> (d: usize)
    requires
        slice_ok(p0@, p1, p2 as nat),
        first_shared(p0@, seq![p1]) < p0@.len() ==> find_offset(p0@, p1) + p2 <= usize::MAX,
    ensures
        d as nat == levenshtein_check(p0@, p1, p2 as nat, ban_word@),
        check_piece(p0@, p1, p2 as nat) == Some(ban_word@) ==> d == 0,
{
    proof {
        lemma_edit_distance_self(ban_word@);
    }
    let text = chars_of(p0.as_str());
    let total = str_byte_len(p0.as_str());
    let mut needle: Vec<char> = Vec::new();
    needle.push(p1);
    let k = first_shared_index(&text, &needle);
    if k >= text.len() {
        return 999;
    }
    proof {
        lemma_byte_len_prefix(text@, k as int);
    }
    let inicio_da_palavra = char_width_total(&text, k);
    let final_da_palavra = inicio_da_palavra + p2;
    if final_da_palavra <= total {
        match boundary_from(&text, k, final_da_palavra) {
            Some(j) => {
                let piece = spaceless_piece(&text, k, j);
                levenshtein(piece.as_str(), ban_word.as_str())
            },
            None => {
                proof {
                    assert(false);
                }
                999
            },
        }
    } else {
        999
    }
}


/// A word that the rule can meet as it is: not empty, with no flagged and no whitespace
/// character.
pub open spec fn word_like(w: Seq<char>) -> bool {
    w.len() > 0 && forall|i: int| 0 <= i < w.len() ==> !flagged(#[trigger] w[i]) && !whitespace(w[i])
}

proof fn lemma_kept_all(w: Seq<char>)
    requires
        forall|i: int| 0 <= i < w.len() ==> !flagged(#[trigger] w[i]),
    ensures
        kept(w) == w,
    decreases w.len(),
{
    if w.len() > 0 {
        let t = w.drop_last();
        assert forall|i: int| 0 <= i < t.len() implies !flagged(#[trigger] t[i]) by {
            assert(t[i] == w[i]);
        }
        lemma_kept_all(t);
        assert(w.drop_last().push(w.last()) =~= w);
    }
}

proof fn lemma_strip_none(w: Seq<char>)
    requires
        forall|i: int| 0 <= i < w.len() ==> !whitespace(#[trigger] w[i]),
    ensures
        strip_spaces(w) == w,
    decreases w.len(),
{
    if w.len() > 0 {
        let t = w.drop_last();
        assert forall|i: int| 0 <= i < t.len() implies !whitespace(#[trigger] t[i]) by {
            assert(t[i] == w[i]);
        }
        lemma_strip_none(t);
        assert(w.drop_last().push(w.last()) =~= w);
    }
}

proof fn lemma_first_shared_zero(w: Seq<char>, pool: Seq<char>)
    requires
        w.len() > 0,
        pool.contains(w[0]),
    ensures
        first_shared(w, pool) == 0,
{
    assert(w.take(0).len() == 0);
    lemma_first_shared_step(w, pool, 0);
    lemma_first_shared_stable(w, pool, 1);
}

/// For a word the rule can meet as it is, the piece that the distance check measures in the
/// word itself is the whole word.
proof fn lemma_word_piece(w: Seq<char>)
    requires
        word_like(w),
    ensures
        kept(w) == w,
        first_shared(w, w) == 0,
        slice_ok(w, w[0], byte_len(w)),
        check_piece(w, w[0], byte_len(w)) == Some(w),
{
    lemma_kept_all(w);
    assert(w.contains(w[0]));
    lemma_first_shared_zero(w, w);
    assert(seq![w[0]][0] == w[0]);
    assert(seq![w[0]].contains(w[0]));
    lemma_first_shared_zero(w, seq![w[0]]);
    assert(w.take(0) =~= Seq::<char>::empty());
    assert(find_offset(w, w[0]) == 0);
    assert(w.take(w.len() as int) =~= w);
    assert(is_boundary(w, byte_len(w) as int));
    let j = boundary_index(w, byte_len(w) as int);
    if j < w.len() {
        lemma_byte_len_grows(w, j, w.len() as int);
    }
    assert(j == w.len());
    assert(w.subrange(0, w.len() as int) =~= w);
    lemma_strip_none(w);
}

/// The tolerance of the distance check: half the banned word's length in bytes, at least 1.
pub open spec fn acceptable_distance(ban_word: Seq<char>) -> nat {
    if byte_len(ban_word) / 2 == 0 {
        1
    } else {
        byte_len(ban_word) / 2
    }
}

/// Whether the banned-word rule reaches the distance check for `ban_word` against a message of
/// `msg_bytes` bytes whose lowercase form is `lowered`.
pub open spec fn runs_distance_check(ban_word: Seq<char>, msg_bytes: nat, lowered: Seq<char>) -> bool {
    let valid = kept(lowered);
    &&& byte_len(ban_word) <= msg_bytes
    &&& byte_len(ban_word) <= byte_len(valid)
    &&& first_shared(ban_word, valid) < ban_word.len()
}

/// The rule is defined on these inputs: where the distance check runs, the byte slice that it
/// takes does not cut a character (elsewhere slicing the message would panic).
pub open spec fn verdict_defined(ban_word: Seq<char>, msg_bytes: nat, lowered: Seq<char>) -> bool {
    let valid = kept(lowered);
    runs_distance_check(ban_word, msg_bytes, lowered) ==> slice_ok(
        valid,
        ban_word[first_shared(ban_word, valid) as int],
        byte_len(ban_word),
    )
}

/// The banned-word rule on a message of `msg_bytes` bytes whose lowercase form is `lowered`.
///
/// With `valid` the unflagged and `invalid` the flagged characters of `lowered`: when the banned
/// word is longer (in bytes) than the message, every character of `valid` must occur in the
/// banned word and the characters of `valid` plus the bytes of `invalid` must add up to the
/// banned word's bytes; when `valid` is shorter than the banned word, every character of `valid`
/// must occur in the banned word; otherwise every character of the banned word must occur in
/// `valid`. In all three cases both parts must be non-empty. The distance check then overrides
/// this answer: a distance under the tolerance says yes, one over it says no.
pub open spec fn ban_verdict(ban_word: Seq<char>, msg_bytes: nat, lowered: Seq<char>) -> bool {
    let valid = kept(lowered);
    let invalid = removed(lowered);
    let bb = byte_len(ban_word);
    let count = if bb > msg_bytes || byte_len(valid) < bb {
        count_in(valid, ban_word)
    } else {
        count_in(ban_word, valid)
    };
    let total = if bb > msg_bytes || byte_len(valid) < bb {
        valid.len()
    } else {
        ban_word.len()
    };
    let sizes_match = !(bb > msg_bytes) || valid.len() == 0 || count_in(valid, ban_word)
        + byte_len(invalid) == bb;
    let base = valid.len() > 0 && invalid.len() > 0 && sizes_match && count == total;
    if runs_distance_check(ban_word, msg_bytes, lowered) {
        let f = first_shared(ban_word, valid);
        let dist = levenshtein_check(valid, ban_word[f as int], bb, ban_word);
        if dist < acceptable_distance(ban_word) {
            true
        } else if dist > acceptable_distance(ban_word) {
            false
        } else {
            base
        }
    } else {
        base
    }
}

proof fn lemma_count_in_bound(s: Seq<char>, pool: Seq<char>)
    ensures
        count_in(s, pool) <= s.len(),
    decreases s.len(),
{
    if s.len() > 0 {
        lemma_count_in_bound(s.drop_last(), pool);
    }
}

proof fn lemma_kept_bytes(s: Seq<char>)
    ensures
        byte_len(kept(s)) <= byte_len(s),
        byte_len(removed(s)) <= byte_len(s),
        kept(s).len() <= s.len(),
    decreases s.len(),
{
    if s.len() > 0 {
        lemma_kept_bytes(s.drop_last());
        let t = kept(s.drop_last());
        let u = removed(s.drop_last());
        assert(t.push(s.last()).drop_last() =~= t);
        assert(u.push(s.last()).drop_last() =~= u);
    }
}

/// The banned-word rule, given the message's length in bytes and its lowercase form.
pub fn ban_word_verdict(ban_word: &String, msg_bytes: usize, lowered: &String) -> (b: bool)
    requires
        verdict_defined(ban_word@, msg_bytes as nat, lowered@),
    ensures
        b == ban_verdict(ban_word@, msg_bytes as nat, lowered@),
        word_like(ban_word@) && lowered@ == ban_word@ && msg_bytes == byte_len(ban_word@) ==> b,
{
    proof {
        if word_like(ban_word@) && lowered@ == ban_word@ && msg_bytes == byte_len(ban_word@) {
            lemma_word_piece(ban_word@);
        }
    }
    let binding = replace_caracters(lowered.clone());
    let valid = chars_of(binding.0.as_str());
    let ban = chars_of(ban_word.as_str());
    let ban_bytes = str_byte_len(ban_word.as_str());
    let valid_bytes = str_byte_len(binding.0.as_str());
    let invalid_bytes = str_byte_len(binding.1.as_str());
    let mut is_b = false;
    let mut is_v = true;
    let mut checked = false;
    let mut dist: usize = 0;
    let count: usize;
    let count_n: usize;
    proof {
        lemma_count_in_bound(valid@, ban@);
        lemma_count_in_bound(ban@, valid@);
        lemma_byte_len_prefix(valid@, 0);
    }
    if ban_bytes > msg_bytes {
        count = count_shared(&valid, &ban);
        count_n = valid.len();
        if valid.len() > 0 {
            is_v = count as u64 + invalid_bytes as u64 == ban_bytes as u64;
        }
    } else if valid_bytes < ban_bytes {
        count = count_shared(&valid, &ban);
        count_n = valid.len();
    } else {
        count = count_shared(&ban, &valid);
        count_n = ban.len();
        let f = first_shared_index(&ban, &valid);
        if f < ban.len() {
            proof {
                lemma_byte_len_prefix(valid@, first_shared(valid@, seq![ban@[f as int]]) as int);
            }
            dist = validacao_usando_levenshtein(binding.0.clone(), ban[f], ban_bytes, ban_word.clone());
            checked = true;
        }
    }
    if valid.len() > 0 && !binding.1.as_str().is_empty() && is_v {
        is_b = count == count_n;
    }
    let mut distancia_aceitavel = ban_bytes / 2;
    if distancia_aceitavel == 0 {
        distancia_aceitavel = 1;
    }
    if checked && dist < distancia_aceitavel {
        is_b = true;
    }
    if checked && dist > distancia_aceitavel {
        is_b = false;
    }
    is_b
}


/// Whether the banned-word rule is defined on these inputs (see `verdict_defined`).
pub fn verdict_is_defined(ban_word: &String, msg_bytes: usize, lowered: &String) -> (b: bool)
    ensures
        b == verdict_defined(ban_word@, msg_bytes as nat, lowered@),
{
    let binding = replace_caracters(lowered.clone());
    let valid = chars_of(binding.0.as_str());
    let ban = chars_of(ban_word.as_str());
    let ban_bytes = str_byte_len(ban_word.as_str());
    let valid_bytes = str_byte_len(binding.0.as_str());
    if ban_bytes > msg_bytes || valid_bytes < ban_bytes {
        return true;
    }
    let f = first_shared_index(&ban, &valid);
    if f >= ban.len() {
        return true;
    }
    let mut needle: Vec<char> = Vec::new();
    needle.push(ban[f]);
    let k = first_shared_index(&valid, &needle);
    if k >= valid.len() {
        return true;
    }
    proof {
        lemma_byte_len_prefix(valid@, k as int);
    }
    let start = char_width_total(&valid, k);
    let end = start + ban_bytes;
    if end > valid_bytes {
        return true;
    }
    boundary_from(&valid, k, end).is_some()
}

/// The banned-word rule on a message: does `msg` stand for `ban_word`?
pub fn is_ban_word(ban_word: String, msg: String) -> (b: bool)
    requires
        verdict_defined(ban_word@, byte_len(msg@), lowercase(msg@)),
    ensures
        b == ban_verdict(ban_word@, byte_len(msg@), lowercase(msg@)),
        word_like(ban_word@) && lowercase(msg@) == ban_word@ && byte_len(msg@) == byte_len(ban_word@) ==> b,
{
    let msg_bytes = str_byte_len(msg.as_str());
    let lowered = to_lowercase(msg.as_str());
    ban_word_verdict(&ban_word, msg_bytes, &lowered)
}

/// The banned-word rule where it is defined; `None` on the messages where slicing the message
/// would cut a character.
pub fn check_ban_word(ban_word: &String, msg: &String) -> (r: Option<bool>)
    ensures
        r == if verdict_defined(ban_word@, byte_len(msg@), lowercase(msg@)) {
            Some(ban_verdict(ban_word@, byte_len(msg@), lowercase(msg@)))
        } else {
            None::<bool>
        },
{
    let msg_bytes = str_byte_len(msg.as_str());
    let lowered = to_lowercase(msg.as_str());
    if verdict_is_defined(ban_word, msg_bytes, &lowered) {
        Some(is_ban_word(ban_word.clone(), msg.clone()))
    } else {
        None
    }
}

/// Whether a message with text `content` by `author_id` is censored for the banned word
/// `ban_word` when the bot's own id is `bot_id`.
pub open spec fn censors(ban_word: Seq<char>, content: Seq<char>, author_id: u64, bot_id: u64) -> bool {
    (ban_verdict(ban_word, byte_len(content), lowercase(content)) || contains_str(
        lowercase(content),
        ban_word,
    )) && author_id != bot_id
}

/// Whether the bot deletes the message for `ban_word`; `None` where the rule is not defined.
pub fn should_censor(ban_word: &String, content: &String, author_id: u64, bot_id: u64) -> (r: Option<bool>)
    ensures
        r == if verdict_defined(ban_word@, byte_len(content@), lowercase(content@)) {
            Some(censors(ban_word@, content@, author_id, bot_id))
        } else {
            None::<bool>
        },
        r is Some && author_id != bot_id && ban_verdict(ban_word@, byte_len(content@), lowercase(content@))
            ==> r == Some(true),
        r is Some && author_id != bot_id && contains_str(lowercase(content@), ban_word@) ==> r == Some(true),
        author_id == bot_id ==> r != Some(true),
{
    match check_ban_word(ban_word, content) {
        None => None,
        Some(verdict) => {
            let hit = verdict || find_str(to_lowercase(content.as_str()).as_str(), ban_word.as_str());
            Some(hit && author_id != bot_id)
        },
    }
}


/// What `serde_json::from_str::<Vec<String>>` makes of a text: the list of strings, or `None`
/// where the text is not a JSON array of strings.
pub uninterp spec fn json_words(text: Seq<char>) -> Option<Seq<Seq<char>>>;

/// What `serde_json::to_string` writes for a list of strings.
pub uninterp spec fn words_json(words: Seq<Seq<char>>) -> Seq<char>;

/// The texts of an optional list of strings.
pub open spec fn words_view(r: Option<Vec<String>>) -> Option<Seq<Seq<char>>> {
    match r {
        Some(v) => Some(v.deep_view()),
        None => None,
    }
}

/// Reads a stored list of banned words.
///
/// Trusted: `serde_json::from_str::<Vec<String>>` parses `text` as a JSON array of strings; its
/// answer is a function of the text alone.
#[verifier::external_body]
fn parse_word_list(text: &str) -> (r: Option<Vec<String>>)
    ensures
        words_view(r) == json_words(text@),
{
    serde_json::from_str::<Vec<String>>(text).ok()
}

/// Writes a list of banned words for storage.
///
/// Trusted: `serde_json::to_string` writes the list as a JSON array of strings, a function of
/// the list alone; a list of strings always serializes, and `serde_json::from_str` reads the
/// same list back from that text.
#[verifier::external_body]
fn word_list_json(words: &Vec<String>) -> (r: String)
    ensures
        r@ == words_json(words.deep_view()),
        json_words(r@) == Some(words.deep_view()),
{
    serde_json::to_string(words).unwrap_or_default()
}

/// The word that every guild bans from the start.
pub open spec fn first_ban_word() -> Seq<char> {
    seq!['v', 'o', 'l', 'd', 'e', 'm', 'o', 'r', 't']
}

fn voldemort() -> (s: String)
    ensures
        s@ == first_ban_word(),
{
    let s = "voldemort".to_owned();
    proof {
        reveal_strlit("voldemort");
    }
    assert(s@ =~= first_ban_word());
    s
}

/// The banned words of a guild that has stored none.
pub fn default_ban_words() -> (v: Vec<String>)
    ensures
        v.deep_view() == seq![first_ban_word()],
{
    let mut v: Vec<String> = Vec::new();
    v.push(voldemort());
    assert(v.deep_view() =~= seq![first_ban_word()]);
    v
}

/// The banned words after `palavra` is added: appended to the stored list, or, where the guild
/// has stored none, the first banned word followed by `palavra`.
pub fn words_after_add(stored: Option<Vec<String>>, palavra: String) -> (v: Vec<String>)
    ensures
        v.deep_view() == match stored {
            Some(list) => list.deep_view().push(palavra@),
            None => seq![first_ban_word(), palavra@],
        },
{
    match stored {
        Some(list) => {
            let mut list = list;
            let ghost before = list.deep_view();
            list.push(palavra);
            assert(list.deep_view() =~= before.push(palavra@));
            list
        },
        None => {
            let mut v = default_ban_words();
            let ghost before = v.deep_view();
            v.push(palavra);
            assert(v.deep_view() =~= before.push(palavra@));
            assert(v.deep_view() =~= seq![first_ban_word(), palavra@]);
            v
        },
    }
}

/// `words` without every occurrence of `w`, in order.
pub open spec fn without(words: Seq<Seq<char>>, w: Seq<char>) -> Seq<Seq<char>>
    decreases words.len(),
{
    if words.len() == 0 {
        seq![]
    } else if words.last() == w {
        without(words.drop_last(), w)
    } else {
        without(words.drop_last(), w).push(words.last())
    }
}

/// The banned words after the ban of `palavra` is lifted: the stored list, or, where the guild
/// has stored none, the list it starts with, without any copy of `palavra`.
pub fn words_after_remove(stored: Option<Vec<String>>, palavra: String) -> (v: Vec<String>)
    ensures
        v.deep_view() == without(
            match stored {
                Some(list) => list.deep_view(),
                None => seq![first_ban_word()],
            },
            palavra@,
        ),
        !v.deep_view().contains(palavra@),
{
    let list = match stored {
        Some(list) => list,
        None => default_ban_words(),
    };
    proof {
        lemma_without_removes(list.deep_view(), palavra@);
    }
    let mut kept_words: Vec<String> = Vec::new();
    let mut i: usize = 0;
    while i < list.len()
        invariant
            i <= list.len(),
            kept_words.deep_view() == without(list.deep_view().take(i as int), palavra@),
        decreases list.len() - i,
    {
        proof {
            assert(list.deep_view().take(i + 1).drop_last() =~= list.deep_view().take(i as int));
        }
        let ghost before = kept_words.deep_view();
        if list[i] != palavra {
            kept_words.push(list[i].clone());
            assert(kept_words.deep_view() =~= before.push(list.deep_view()[i as int]));
        }
        i = i + 1;
    }
    assert(list.deep_view().take(list.len() as int) =~= list.deep_view());
    kept_words
}

/// The banned words of a guild as the bot reads them from `stored`, the text kept for the guild
/// (`None` where nothing is kept): the list that the text holds, or the first banned word alone
/// where nothing is kept; `None` where the kept text is not a JSON list of strings.
pub fn stored_ban_words(stored: Option<String>) -> (r: Option<Vec<String>>)
    ensures
        match stored {
            Some(t) => words_view(r) == json_words(t@),
            None => r matches Some(v) && v.deep_view() == seq![first_ban_word()],
        },
{
    match stored {
        Some(t) => parse_word_list(t.as_str()),
        None => Some(default_ban_words()),
    }
}

/// The text kept for a guild after `palavra` is banned, from the text kept before (`None` where
/// nothing is kept; see `words_after_add`); reading the new text back gives the new list.
/// `None` where the kept text is not a JSON list of strings.
pub fn ban_words_text_after_add(stored: Option<String>, palavra: String) -> (r: Option<String>)
    ensures
        match stored {
            Some(t) => match json_words(t@) {
                Some(ws) => r matches Some(text) && text@ == words_json(ws.push(palavra@))
                    && json_words(text@) == Some(ws.push(palavra@)),
                None => r is None,
            },
            None => r matches Some(text) && text@ == words_json(seq![first_ban_word(), palavra@])
                && json_words(text@) == Some(seq![first_ban_word(), palavra@]),
        },
{
    let list = match stored {
        Some(t) => match parse_word_list(t.as_str()) {
            Some(l) => Some(l),
            None => return None,
        },
        None => None,
    };
    let v = words_after_add(list, palavra);
    Some(word_list_json(&v))
}

/// The text kept for a guild after the ban of `palavra` is lifted, from the text kept before
/// (`None` where nothing is kept; see `words_after_remove`); reading the new text back gives
/// the new list. `None` where the kept text is not a JSON list of strings.
pub fn ban_words_text_after_remove(stored: Option<String>, palavra: String) -> (r: Option<String>)
    ensures
        match stored {
            Some(t) => match json_words(t@) {
                Some(ws) => r matches Some(text) && text@ == words_json(without(ws, palavra@))
                    && json_words(text@) == Some(without(ws, palavra@)),
                None => r is None,
            },
            None => r matches Some(text) && text@ == words_json(without(seq![first_ban_word()], palavra@))
                && json_words(text@) == Some(without(seq![first_ban_word()], palavra@)),
        },
        r matches Some(text) ==> (json_words(text@) matches Some(ws) && !ws.contains(palavra@)),
{
    let list = match stored {
        Some(t) => match parse_word_list(t.as_str()) {
            Some(l) => Some(l),
            None => return None,
        },
        None => None,
    };
    let v = words_after_remove(list, palavra);
    Some(word_list_json(&v))
}

/// The listing of the banned words that the bot sends: a heading and one line per word;
/// `None` where there is no banned word.
pub fn ban_word_listing(words: &Vec<String>) -> (r: Option<String>)
    ensures
        r matches Some(m) ==> m@ == "### LISTA DE PALAVRAS SILENCIADAS"@ + bullet_list(words.deep_view()),
        r is None <==> words.len() == 0,
{
    if words.len() == 0 {
        return None;
    }
    let mut lista = "### LISTA DE PALAVRAS SILENCIADAS".to_owned();
    push_bullets(&mut lista, words);
    Some(lista)
}


/// A message is never censored when the bot wrote it, and always censored, by anyone else,
/// when its lowercase text contains the banned word.
pub proof fn lemma_censor_rules(ban_word: Seq<char>, content: Seq<char>, author_id: u64, bot_id: u64)
    ensures
        author_id == bot_id ==> !censors(ban_word, content, author_id, bot_id),
        contains_str(lowercase(content), ban_word) && author_id != bot_id ==> censors(
            ban_word,
            content,
            author_id,
            bot_id,
        ),
        ban_verdict(ban_word, byte_len(content), lowercase(content)) && author_id != bot_id ==> censors(
            ban_word,
            content,
            author_id,
            bot_id,
        ),
{
}

/// A message that the banned-word rule takes for the banned word is censored, whoever but the
/// bot wrote it, however the word is disguised: the answer on the message is the rule's answer
/// on it, and nothing else lifts it.
pub proof fn lemma_fuzzy_match_censors(ban_word: Seq<char>, content: Seq<char>, author_id: u64, bot_id: u64)
    requires
        author_id != bot_id,
        ban_verdict(ban_word, byte_len(content), lowercase(content)),
    ensures
        censors(ban_word, content, author_id, bot_id),
{
}

/// Splitting a message loses no character: the kept and the flagged parts together are as long
/// as the message, the kept part holds no flagged character and the flagged part only flagged
/// ones.
pub proof fn lemma_split_partition(s: Seq<char>)
    ensures
        kept(s).len() + removed(s).len() == s.len(),
        forall|i: int| 0 <= i < kept(s).len() ==> !flagged(#[trigger] kept(s)[i]),
        forall|i: int| 0 <= i < removed(s).len() ==> flagged(#[trigger] removed(s)[i]),
    decreases s.len(),
{
    if s.len() > 0 {
        let t = s.drop_last();
        lemma_split_partition(t);
        assert forall|i: int| 0 <= i < kept(s).len() implies !flagged(#[trigger] kept(s)[i]) by {
            if i < kept(t).len() {
                assert(kept(s)[i] == kept(t)[i]);
            }
        }
        assert forall|i: int| 0 <= i < removed(s).len() implies flagged(#[trigger] removed(s)[i]) by {
            if i < removed(t).len() {
                assert(removed(s)[i] == removed(t)[i]);
            }
        }
    }
}

/// Taking a word off the list leaves none of it and keeps every other word.
pub proof fn lemma_without_removes(words: Seq<Seq<char>>, w: Seq<char>)
    ensures
        !without(words, w).contains(w),
        forall|x: Seq<char>| x != w ==> (#[trigger] without(words, w).contains(x) <==> words.contains(x)),
    decreases words.len(),
{
    if words.len() > 0 {
        let t = words.drop_last();
        lemma_without_removes(t, w);
        let r = without(words, w);
        let rt = without(t, w);
        assert forall|x: Seq<char>| x != w implies (#[trigger] without(words, w).contains(x) <==> words.contains(x)) by {
            assert(rt.contains(x) <==> t.contains(x));
            if words.contains(x) {
                let i = choose|i: int| 0 <= i < words.len() && words[i] == x;
                if i < t.len() {
                    assert(t[i] == x);
                    assert(t.contains(x));
                    let k = choose|k: int| 0 <= k < rt.len() && rt[k] == x;
                    assert(r[k] == x);
                } else {
                    assert(r.last() == x);
                    assert(r[r.len() - 1] == x);
                }
            }
            if r.contains(x) {
                let i = choose|i: int| 0 <= i < r.len() && r[i] == x;
                if i < rt.len() {
                    assert(rt[i] == x);
                    assert(rt.contains(x));
                    assert(t.contains(x));
                    let j = choose|j: int| 0 <= j < t.len() && t[j] == x;
                    assert(words[j] == t[j]);
                } else {
                    assert(words[words.len() - 1] == x);
                }
            }
        }
        if r.contains(w) {
            let i = choose|i: int| 0 <= i < r.len() && r[i] == w;
            if i < rt.len() {
                assert(rt[i] == w);
                assert(rt.contains(w));
            }
        }
    }
}

/// Taking off a word that was just added gives the list that taking it off before would
/// have given: adding and then removing a word leaves no trace of it.
pub proof fn lemma_remove_undoes_add(words: Seq<Seq<char>>, w: Seq<char>)
    ensures
        without(words.push(w), w) == without(words, w),
{
    assert(words.push(w).drop_last() =~= words);
}

proof fn lemma_ascii_byte_len(s: Seq<char>)
    requires
        ascii_text(s),
    ensures
        byte_len(s) == s.len(),
        forall|j: int| 0 <= j <= s.len() ==> #[trigger] byte_len(s.take(j)) == j,
    decreases s.len(),
{
    if s.len() > 0 {
        let t = s.drop_last();
        assert(ascii_text(t)) by {
            assert forall|i: int| 0 <= i < t.len() implies ascii_char(#[trigger] t[i]) by {
                assert(t[i] == s[i]);
            }
        }
        lemma_ascii_byte_len(t);
        assert(ascii_char(s[s.len() - 1]));
        assert forall|j: int| 0 <= j <= s.len() implies #[trigger] byte_len(s.take(j)) == j by {
            if j < s.len() {
                assert(s.take(j) =~= t.take(j));
            } else {
                assert(s.take(j) =~= s);
            }
        }
    }
}

proof fn lemma_ascii_parts(s: Seq<char>)
    requires
        ascii_text(s),
    ensures
        ascii_text(kept(s)),
        ascii_text(removed(s)),
        kept(s).len() + removed(s).len() == s.len(),
    decreases s.len(),
{
    if s.len() > 0 {
        let t = s.drop_last();
        assert(ascii_text(t)) by {
            assert forall|i: int| 0 <= i < t.len() implies ascii_char(#[trigger] t[i]) by {
                assert(t[i] == s[i]);
            }
        }
        lemma_ascii_parts(t);
        assert(ascii_char(s[s.len() - 1]));
        let k = kept(s);
        let r = removed(s);
        assert forall|i: int| 0 <= i < k.len() implies ascii_char(#[trigger] k[i]) by {
            if i < kept(t).len() {
                assert(k[i] == kept(t)[i]);
            }
        }
        assert forall|i: int| 0 <= i < r.len() implies ascii_char(#[trigger] r[i]) by {
            if i < removed(t).len() {
                assert(r[i] == removed(t)[i]);
            }
        }
    }
}

proof fn lemma_ascii_case(s: Seq<char>)
    requires
        ascii_text(s),
    ensures
        ascii_text(ascii_lower(s)),
        ascii_text(ascii_upper(s)),
        ascii_lower(s).len() == s.len(),
        ascii_upper(s).len() == s.len(),
        ascii_lower(ascii_lower(s)) == ascii_lower(s),
        ascii_lower(ascii_upper(s)) == ascii_lower(s),
{
    let l = ascii_lower(s);
    let u = ascii_upper(s);
    assert forall|i: int| 0 <= i < l.len() implies ascii_char(#[trigger] l[i]) by {
        assert(ascii_char(s[i]));
    }
    assert forall|i: int| 0 <= i < u.len() implies ascii_char(#[trigger] u[i]) by {
        assert(ascii_char(s[i]));
    }
    assert(ascii_lower(l) =~= l);
    assert(ascii_lower(u) =~= l);
}

/// On ASCII messages the banned-word rule is always defined: every byte offset of ASCII text
/// falls between two characters.
pub proof fn lemma_ascii_rule_defined(ban_word: Seq<char>, msg: Seq<char>)
    requires
        ascii_text(msg),
    ensures
        verdict_defined(ban_word, byte_len(msg), lowercase(msg)),
{
    let lowered = lowercase(msg);
    lemma_ascii_case(msg);
    lemma_ascii_parts(lowered);
    let valid = kept(lowered);
    lemma_ascii_byte_len(valid);
    if runs_distance_check(ban_word, byte_len(msg), lowered) {
        let c = ban_word[first_shared(ban_word, valid) as int];
        let k = first_shared(valid, seq![c]);
        let b = byte_len(ban_word);
        if k < valid.len() && find_offset(valid, c) + b <= byte_len(valid) {
            let e = (find_offset(valid, c) + b) as int;
            assert(byte_len(valid.take(k as int)) == k);
            assert(byte_len(valid.take(e)) == e);
            assert(is_boundary(valid, e));
        }
    }
}

/// An ASCII message shorter than the banned word (in bytes) is never taken for it.
pub proof fn lemma_ascii_short_message_not_banned(ban_word: Seq<char>, msg: Seq<char>)
    requires
        ascii_text(msg),
        byte_len(ban_word) > msg.len(),
    ensures
        !ban_verdict(ban_word, byte_len(msg), lowercase(msg)),
{
    let lowered = lowercase(msg);
    lemma_ascii_case(msg);
    lemma_ascii_byte_len(msg);
    lemma_ascii_parts(lowered);
    let valid = kept(lowered);
    let invalid = removed(lowered);
    lemma_ascii_byte_len(invalid);
    lemma_count_in_bound(valid, ban_word);
    assert(count_in(valid, ban_word) + byte_len(invalid) < byte_len(ban_word));
}

/// On ASCII messages the rule does not depend on case: the message, its lowercase form and its
/// uppercase form get the same answer.
pub proof fn lemma_ascii_case_insensitive(ban_word: Seq<char>, msg: Seq<char>)
    requires
        ascii_text(msg),
    ensures
        ascii_text(ascii_lower(msg)),
        ascii_text(ascii_upper(msg)),
        ban_verdict(ban_word, byte_len(ascii_lower(msg)), lowercase(ascii_lower(msg))) == ban_verdict(
            ban_word,
            byte_len(msg),
            lowercase(msg),
        ),
        ban_verdict(ban_word, byte_len(ascii_upper(msg)), lowercase(ascii_upper(msg))) == ban_verdict(
            ban_word,
            byte_len(msg),
            lowercase(msg),
        ),
{
    lemma_ascii_case(msg);
    lemma_ascii_byte_len(msg);
    lemma_ascii_byte_len(ascii_lower(msg));
    lemma_ascii_byte_len(ascii_upper(msg));
}

/// A banned word the rule can meet as it is, checked against itself, is taken for itself.
proof fn lemma_word_banned(w: Seq<char>)
    requires
        word_like(w),
    ensures
        ban_verdict(w, byte_len(w), w),
{
    lemma_word_piece(w);
    lemma_edit_distance_self(w);
    assert(levenshtein_check(kept(w), w[first_shared(w, kept(w)) as int], byte_len(w), w) == 0);
}

/// A banned word of small ASCII letters is always caught, in small letters or in capitals.
pub proof fn lemma_ascii_word_banned(w: Seq<char>)
    requires
        w.len() > 0,
        forall|i: int| 0 <= i < w.len() ==> 97 <= (#[trigger] w[i] as u32) <= 122,
    ensures
        ascii_text(w),
        ascii_text(ascii_upper(w)),
        ban_verdict(w, byte_len(w), lowercase(w)),
        ban_verdict(w, byte_len(ascii_upper(w)), lowercase(ascii_upper(w))),
{
    assert forall|i: int| 0 <= i < w.len() implies ascii_char(#[trigger] w[i]) by {
        assert(97 <= (w[i] as u32) <= 122);
    }
    lemma_ascii_case(w);
    assert(ascii_lower(w) =~= w);
    assert forall|i: int| 0 <= i < w.len() implies !flagged(#[trigger] w[i]) && !whitespace(w[i]) by {
        assert(97 <= (w[i] as u32) <= 122);
    }
    assert(word_like(w));
    lemma_word_banned(w);
    lemma_ascii_byte_len(w);
    lemma_ascii_byte_len(ascii_upper(w));
}

} // verus!
