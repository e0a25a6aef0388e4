//! Reading the streamed answer of the language model that the bot asks questions.
use vstd::prelude::*;
use crate::text::{matches_at, append, chars_of, string_from_chars, split_on, split_text, lemma_split_on_nonempty};

verus! {

/// What `serde_json` finds in one streamed chunk: the string at `choices[0].delta.content`, or
/// `None` where the text is not JSON or holds no string there.
pub uninterp spec fn delta_content(text: Seq<char>) -> Option<Seq<char>>;

/// Trusted: `serde_json::from_str::<Value>` parses the chunk; indexing `choices`, `0`,
/// `delta`, `content` and `as_str` pick the string there. The answer is a function of the text
/// alone.
#[verifier::external_body]
fn chunk_content(text: &str) -> (r: Option<String>)
    ensures
        match r {
            Some(c) => delta_content(text@) == Some(c@),
            None => delta_content(text@) is None,
        },
{
    match serde_json::from_str::<serde_json::Value>(text) {
        Ok(json) => json["choices"].as_array().and_then(|choices| choices.first()).and_then(
            |choice| choice["delta"]["content"].as_str(),
        ).map(|content| content.to_owned()),
        Err(_) => None,
    }
}

/// `s` without its one trailing carriage return, if any.
pub open spec fn without_cr(s: Seq<char>) -> Seq<char> {
    if s.len() > 0 && s.last() == '\r' {
        s.drop_last()
    } else {
        s
    }
}

/// The lines of `s` (what `str::lines` yields): the pieces between newlines, each ended by a
/// newline losing one carriage return before it; a final newline ends the last line and starts
/// none, and a last line with no newline after it is kept as it is.
pub open spec fn lines_of(s: Seq<char>) -> Seq<Seq<char>> {
    let pieces = split_on(s, '\n');
    let ended = pieces.drop_last().map_values(|l: Seq<char>| without_cr(l));
    if pieces.last().len() == 0 {
        ended
    } else {
        ended.push(pieces.last())
    }
}

/// `s` with every leading repetition of `p` taken off (what `str::trim_start_matches` does).
pub open spec fn strip_prefixes(s: Seq<char>, p: Seq<char>) -> Seq<char>
    decreases s.len(),
{
    if p.len() > 0 && p.len() <= s.len() && s.take(p.len() as int) == p {
        strip_prefixes(s.skip(p.len() as int), p)
    } else {
        s
    }
}

/// The contents of the streamed chunks, one after the other.
pub open spec fn streamed_text(lines: Seq<Seq<char>>) -> Seq<char>
    decreases lines.len(),
{
    if lines.len() == 0 {
        seq![]
    } else {
        let rest = streamed_text(lines.drop_last());
        match delta_content(strip_prefixes(lines.last(), "data: "@)) {
            Some(c) => rest + c,
            None => rest,
        }
    }
}

fn strip_cr(v: &Vec<char>) -> (r: Vec<char>)
    ensures
        r@ == without_cr(v@),
{
    let mut r: Vec<char> = Vec::new();
    let n = if v.len() > 0 && v[v.len() - 1] == '\r' {
        v.len() - 1
    } else {
        v.len()
    };
    let mut i: usize = 0;
    while i < n
        invariant
            i <= n <= v.len(),
            r@ == v@.take(i as int),
        decreases n - i,
    {
        r.push(v[i]);
        i = i + 1;
        assert(r@ =~= v@.take(i as int));
    }
    assert(v@.take(n as int) =~= without_cr(v@));
    r
}

fn trim_data_prefix(v: &Vec<char>) -> (r: Vec<char>)
    ensures
        r@ == strip_prefixes(v@, "data: "@),
{
    let p = chars_of("data: ");
    proof {
        reveal_strlit("data: ");
    }
    assert(p@.len() == 6);
    let mut start: usize = 0;
    assert(v@.skip(0) =~= v@);
    loop
        invariant
            start <= v.len(),
            p@ == "data: "@,
            p@.len() == 6,
            strip_prefixes(v@.skip(start as int), p@) == strip_prefixes(v@, p@),
        decreases v.len() - start,
    {
        let ghost rest = v@.skip(start as int);
        if p.len() <= v.len() - start && matches_at(v, &p, start) {
            assert(rest.take(p.len() as int) =~= v@.subrange(start as int, start + p.len()));
            assert(rest.skip(p.len() as int) =~= v@.skip(start + p.len()));
            start = start + p.len();
        } else {
            assert(!(p.len() <= rest.len() && rest.take(p.len() as int) == p@)) by {
                if p.len() <= rest.len() {
                    assert(rest.take(p.len() as int) =~= v@.subrange(start as int, start + p.len()));
                }
            }
            let mut r: Vec<char> = Vec::new();
            let mut i: usize = start;
            while i < v.len()
                invariant
                    start <= i <= v.len(),
                    r@ == v@.subrange(start as int, i as int),
                decreases v.len() - i,
            {
                r.push(v[i]);
                i = i + 1;
                assert(r@ =~= v@.subrange(start as int, i as int));
            }
            assert(r@ =~= rest);
            return r;
        }
    }
}

/// The answer streamed back by the model: the content of every chunk line (after any leading
/// "data: "), one after the other; lines that are not such chunks add nothing.
pub fn stream_content(response_text: &String) -> (r: String)
    ensures
        r@ == streamed_text(lines_of(response_text@)),
{
    let pieces = split_text(response_text, '\n');
    let ghost all = split_on(response_text@, '\n');
    let n = if pieces.len() > 0 && pieces[pieces.len() - 1].as_str().is_empty() {
        pieces.len() - 1
    } else {
        pieces.len()
    };
    proof {
        lemma_split_on_nonempty(response_text@, '\n');
    }
    let ghost lines = lines_of(response_text@);
    assert(lines.len() == n);
    let mut concatenated_content = String::new();
    let mut i: usize = 0;
    while i < n
        invariant
            i <= n <= pieces.len(),
            pieces.deep_view() == all,
            lines.len() == n,
            forall|j: int| 0 <= j < n ==> #[trigger] lines[j] == if j + 1 < all.len() {
                without_cr(all[j])
            } else {
                all[j]
            },
            concatenated_content@ == streamed_text(lines.take(i as int)),
        decreases n - i,
    {
        proof {
            assert(lines.take(i + 1).drop_last() =~= lines.take(i as int));
        }
        let line = if i + 1 < pieces.len() {
            strip_cr(&chars_of(pieces[i].as_str()))
        } else {
            chars_of(pieces[i].as_str())
        };
        let trimmed = trim_data_prefix(&line);
        let text = string_from_chars(&trimmed);
        match chunk_content(text.as_str()) {
            Some(content) => append(&mut concatenated_content, content.as_str()),
            None => {},
        }
        i = i + 1;
    }
    assert(lines.take(n as int) =~= lines);
    concatenated_content
}

} // verus!
